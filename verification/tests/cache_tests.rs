use gypaetus::cache::{block_size, level_next, RingBuffer, RingBufferReader};

#[test]
fn test_level() {
    let mut up: u8 = 16 | 0;
    for _x in 1..20 {
        let level = up & 15;
        println!("level:{}", level);
        let new_level = level_next(level as usize);
        println!("newLevel:{}", new_level);
        up = (16 | new_level) as u8;
        println!("up:{}", up);
    }
    assert_eq!(level_next(0), 1);
    assert_eq!(level_next(8), 9);
    assert_eq!(level_next(9), 9);
    assert_eq!(block_size(0), 9);
    assert_eq!(block_size(9), 18);
}

#[test]
fn cache_test_iter() {
    let x = [0, 0, 0, 1, 0, 0];
    let i = x.iter().enumerate().find(|(_i, v)| {
        println!("{}", **v);
        if **v != 0 {
            return true;
        }
        false
    });
    println!("{:?}", i);
    assert_eq!(i, Some((3, &1)));
}

#[test]
fn test_slice() {
    let mut slice = [0usize, 0, 0, 0];
    for i in 0..slice.len() {
        slice[i] = (256 >> (8 * (3 - i)) as usize) as u8 as usize;
    }
    println!("slice{:?}", slice);

    let next_addr = ((slice[0] & 0xff) << 24)
        + ((slice[1] & 0xff) << 16)
        + ((slice[2] & 0xff) << 8)
        + (slice[3] & 0xff);
    println!("next_addr{:?}", next_addr);
    assert_eq!(next_addr, 256);
}

#[test]
fn test_write() {
    let mut b = RingBuffer::new();
    let x: [u8; 12] = [1, 2, 3, 4, 5, 6, 7, 8, 9, 10, 11, 12];
    let h = b.borrow_mut().new_stream().unwrap();
    for _ in 0..11 {
        b.borrow_mut().write_array(h, &x).unwrap();
    }
    let (start, end) = b.borrow().stream_span(h);
    println!("start:{},end:{}", start, end);

    let mut all: Vec<u8> = Vec::new();
    let mut reader = RingBufferReader::new(b.borrow(), start, end);
    while let Some(v) = reader.next() {
        println!("b:{:?},len:{:?}", v.data, v.data.len());
        all.extend_from_slice(&v.data);
    }
    let mut expect: Vec<u8> = Vec::new();
    for _ in 0..11 {
        expect.extend_from_slice(&x);
    }
    assert_eq!(all, expect);
}

#[test]
#[allow(non_snake_case)]
fn test_read_Int() {
    let u64var_test: [u64; 23] = [
        1,
        2,
        10,
        20,
        63,
        64,
        65,
        127,
        128,
        129,
        255,
        256,
        257,
        517,
        768,
        5976746468,
        88748464645454,
        5789627789625558,
        18446744073709551,
        184467440737095516,
        1844674407370955161,
        18446744073709551615,
        1 << 63,
    ];
    let mut b = RingBuffer::new();
    let h = b.borrow_mut().new_stream().unwrap();
    let mut buf: Vec<u8> = Vec::new();
    gypaetus::varint::write_vu64(&mut buf, 0);
    for i in u64var_test {
        gypaetus::varint::write_vu64(&mut buf, i);
    }
    b.borrow_mut().write_array(h, &buf).unwrap();
    let (start, end) = b.borrow().stream_span(h);
    let bytes = b.borrow().read_chain(start, end);
    let mut pos = 0usize;
    let mut got: Vec<u64> = Vec::new();
    for _ in 0..u64var_test.len() + 1 {
        let (i, end2) = gypaetus::varint::read_vu64(&bytes, pos).unwrap();
        println!("i:{}", i);
        got.push(i);
        pos = end2;
    }
    assert_eq!(got[0], 0);
    assert_eq!(&got[1..], &u64var_test);
}

#[test]
fn test_big_write_spans_pages() {
    // a value larger than one pool page must chain across pages and still
    // read back byte for byte
    let mut b = RingBuffer::new();
    let h = b.borrow_mut().new_stream().unwrap();
    let mut big: Vec<u8> = Vec::with_capacity(40000);
    for i in 0..40000usize {
        big.push((i % 251) as u8);
    }
    b.borrow_mut().write_array(h, &big).unwrap();
    assert!(b.borrow().buffers.len() >= 2);
    let (start, end) = b.borrow().stream_span(h);
    let back = b.borrow().read_chain(start, end);
    assert_eq!(back, big);
}
