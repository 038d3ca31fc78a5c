use pagecache::reservation::{IoBufs, Reservation};

fn reserve<'a>(iobufs: &'a mut IoBufs, room: &'a mut [u8], data: Vec<u8>) -> Reservation<'a> {
    Reservation { iobufs, idx: 3, data, destination: room, flushed: false, lsn: 70, lid: 700 }
}

#[test]
fn completing_writes_the_data() {
    let mut iobufs = IoBufs::new();
    let mut room = [9u8; 4];
    let r = reserve(&mut iobufs, &mut room, vec![1, 2, 3, 4]);
    assert_eq!(r.lsn(), 70);
    assert_eq!(r.lid(), 700);
    assert_eq!(r.complete(), (70, 700));
    assert_eq!(room, [1, 2, 3, 4]);
    assert_eq!(iobufs.exited, vec![3]);
}

#[test]
fn aborting_writes_zeroes() {
    let mut iobufs = IoBufs::new();
    let mut room = [9u8; 4];
    let r = reserve(&mut iobufs, &mut room, vec![1, 2, 3]);
    assert_eq!(r.abort(), (70, 700));
    assert_eq!(room, [0, 0, 0, 9]);
    assert_eq!(iobufs.exited, vec![3]);
}

#[test]
fn dropping_an_unused_reservation_aborts_it() {
    let mut iobufs = IoBufs::new();
    let mut room = [9u8; 2];
    reserve(&mut iobufs, &mut room, vec![1, 2]).drop();
    assert_eq!(room, [0, 0]);
    assert_eq!(iobufs.exited, vec![3]);
}

#[test]
fn dropping_an_empty_or_used_reservation_does_nothing() {
    let mut iobufs = IoBufs::new();
    let mut room = [9u8; 2];
    reserve(&mut iobufs, &mut room, vec![]).drop();
    assert_eq!(room, [9, 9]);
    let mut used = reserve(&mut iobufs, &mut room, vec![1, 2]);
    used.flushed = true;
    used.drop();
    assert_eq!(room, [9, 9]);
    assert!(iobufs.exited.is_empty());
}

#[test]
fn buffers_are_left_in_order() {
    let mut iobufs = IoBufs::new();
    iobufs.exit_reservation(2);
    iobufs.exit_reservation(0);
    assert_eq!(iobufs.exited, vec![2, 0]);
}
