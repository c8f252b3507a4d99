use rust_labs::ring_buffer::{BufferError, CircularBuffer};

#[test]
pub fn circular_buffer_insert() {
    let mut cb: CircularBuffer<i32> = CircularBuffer::new(10);
    cb.write(1).unwrap();
    assert_eq!(cb.size(), 10);
    assert_eq!(cb.num(), 1);
}

#[test]
pub fn circular_buffer_write_read() {
    let mut cb: CircularBuffer<i32> = CircularBuffer::new(10);
    cb.write(1).unwrap();
    assert_eq!(cb.read().unwrap(), 1);
}

#[test]
pub fn circular_buffer_write_multiple() {
    let mut cb: CircularBuffer<i32> = CircularBuffer::new(10);
    for i in 0..10 {
        cb.write(i).unwrap();
    }
    assert_eq!(cb.num(), 10);

    for i in 0..10 {
        assert_eq!(cb.read().unwrap(), i);
    }
}

#[test]
pub fn circular_buffer_read_when_empty() {
    let mut cb: CircularBuffer<i32> = CircularBuffer::new(10);
    assert_eq!(cb.read(), None);
}

#[test]
pub fn circular_buffer_write_when_full() {
    let mut cb: CircularBuffer<i32> = CircularBuffer::new(10);
    for i in 0..10 {
        cb.write(i).unwrap();
    }
    assert_eq!(cb.write(10).err().unwrap(), BufferError::BufferOverflow);
}

#[test]
pub fn circular_buffer_make_contiguous() {
    let mut cb: CircularBuffer<i32> = CircularBuffer::new(5);
    for _i in 0..5 {
        cb.write(1).unwrap();
    }
    cb.read().unwrap();
    cb.read().unwrap();
    cb.read().unwrap();
    cb.write(1).unwrap();
    cb.write(1).unwrap();
    assert_eq!(cb.to_string(), "1, 1, , 1, 1, ");

    cb.make_contiguous();

    assert_eq!(cb.to_string(), "1, 1, 1, 1, , ");
}

#[test]
pub fn circular_buffer_test_index() {
    let mut cb: CircularBuffer<i32> = CircularBuffer::new(5);
    for i in 0..5 {
        cb.write(i).unwrap();
    }
    assert_eq!(cb[0].unwrap(), 0);
    assert_eq!(cb[4].unwrap(), 4);
}

#[test]
pub fn circular_buffer_test_index_non_contiguous() {
    let mut cb: CircularBuffer<i32> = CircularBuffer::new(5);
    for _i in 0..5 {
        cb.write(1).unwrap();
    }
    cb.read().unwrap();
    cb.read().unwrap();
    cb.read().unwrap();
    cb.write(2).unwrap();
    cb.write(3).unwrap();

    assert_eq!(cb[0].unwrap(), 1);
    assert_eq!(cb[3].unwrap(), 3);
}

#[test]
pub fn circular_buffer_test_mut_index() {
    let mut cb: CircularBuffer<i32> = CircularBuffer::new(5);
    for i in 0..5 {
        cb.write(i).unwrap();
    }
    assert_eq!(cb[2].unwrap(), 2);

    cb.set(2, Some(5));

    assert_eq!(cb[2].unwrap(), 5);
}

#[test]
fn ring_write_on_zero_capacity_is_empty_error() {
    let mut cb: CircularBuffer<i32> = CircularBuffer::new(0);
    assert_eq!(cb.write(1), Err(BufferError::BufferIsEmpty));
    assert_eq!(cb.num(), 0);
}

#[test]
fn ring_clear_drops_all_slots() {
    let mut cb: CircularBuffer<i32> = CircularBuffer::new(3);
    cb.write(7).unwrap();
    cb.clear();
    assert_eq!(cb.size(), 0);
    assert_eq!(cb.num(), 0);
    assert_eq!(cb.write(1), Err(BufferError::BufferIsEmpty));
}

#[test]
fn ring_overwrite_replaces_oldest_when_full() {
    let mut cb: CircularBuffer<i32> = CircularBuffer::new(3);
    for i in 0..3 {
        cb.write(i).unwrap();
    }
    cb.overwrite(9);
    assert_eq!(cb.num(), 3);
    assert_eq!(cb.to_string(), "9, 1, 2, ");
    assert_eq!(cb.read(), Some(1));
    assert_eq!(cb.read(), Some(2));
    assert_eq!(cb.read(), Some(9));
    assert_eq!(cb.read(), None);
}

#[test]
fn ring_overwrite_twice_drops_the_two_oldest() {
    let mut cb: CircularBuffer<i32> = CircularBuffer::new(3);
    for i in 1..4 {
        cb.write(i).unwrap();
    }
    cb.overwrite(4);
    cb.overwrite(5);
    assert_eq!(cb.read(), Some(3));
    assert_eq!(cb.read(), Some(4));
    assert_eq!(cb.read(), Some(5));
}

#[test]
fn ring_overwrite_on_empty_is_counted() {
    let mut cb: CircularBuffer<i32> = CircularBuffer::new(2);
    cb.overwrite(7);
    assert_eq!(cb.num(), 1);
    assert_eq!(cb.read(), Some(7));
}

#[test]
fn ring_contiguous_full_buffer_keeps_working() {
    let mut cb: CircularBuffer<i32> = CircularBuffer::new(3);
    for i in 0..3 {
        cb.write(i).unwrap();
    }
    cb.read().unwrap();
    cb.write(3).unwrap();
    cb.make_contiguous();
    assert_eq!(cb.to_string(), "1, 2, 3, ");
    assert_eq!(cb.read(), Some(1));
    cb.write(4).unwrap();
    assert_eq!(cb.read(), Some(2));
    assert_eq!(cb.read(), Some(3));
    assert_eq!(cb.read(), Some(4));
}

#[test]
fn ring_overwrite_appends_when_room() {
    let mut cb: CircularBuffer<i32> = CircularBuffer::new(3);
    cb.write(4).unwrap();
    cb.overwrite(5);
    assert_eq!(cb.num(), 2);
    assert_eq!(cb.read(), Some(4));
    assert_eq!(cb.read(), Some(5));
}

#[test]
fn ring_fifo_wraps_around() {
    let mut cb: CircularBuffer<i32> = CircularBuffer::new(2);
    cb.write(1).unwrap();
    cb.write(2).unwrap();
    assert_eq!(cb.read(), Some(1));
    cb.write(-3).unwrap();
    assert_eq!(cb.to_string(), "-3, 2, ");
    assert_eq!(cb.read(), Some(2));
    assert_eq!(cb.read(), Some(-3));
    assert_eq!(cb.read(), None);
}
