use historian::radix::{split_fanout, Radix};

#[test]
fn test_split_fanout() {
    assert_eq!(split_fanout(0b11_1111), (0b11_1111, 0));
    assert_eq!(split_fanout(0b111_1111), (0b11_1111, 0b1));
}

#[test]
fn basic_functionality() {
    let mut rt = Radix::default();
    rt.incr(16);
    rt.incr(16);
    rt.incr(16);
    rt.incr(16);
    rt.incr(16);

    let count = rt.get(16);
    assert_eq!(count, 5);
}

#[test]
fn unobserved_ids_read_zero() {
    let rt = Radix::default();
    assert_eq!(rt.get(0), 0);
    assert_eq!(rt.get(1), 0);
    assert_eq!(rt.get(12345), 0);
    assert_eq!(rt.get(65535), 0);

    let mut rt = Radix::default();
    rt.incr(7);
    assert_eq!(rt.get(7), 1);
    assert_eq!(rt.get(8), 0);
    assert_eq!(rt.get(6), 0);
}

#[test]
fn shared_path_prefixes_stay_separate() {
    // 5, 69 and 4165 share slots on their paths through the tree:
    // 69 = 5 + 64 and 4165 = 5 + 64 + 4096 peel the same low digits.
    let mut rt = Radix::default();
    rt.incr(5);
    rt.incr(69);
    rt.incr(69);
    rt.incr(4165);
    rt.incr(4165);
    rt.incr(4165);
    assert_eq!(rt.get(5), 1);
    assert_eq!(rt.get(69), 2);
    assert_eq!(rt.get(4165), 3);
    assert_eq!(rt.get(65535), 0);
}

#[test]
fn increments_return_the_new_count() {
    let mut rt = Radix::default();
    assert_eq!(rt.incr(300), 1);
    assert_eq!(rt.incr(300), 2);
    assert_eq!(rt.incr(0), 1);
    assert_eq!(rt.incr(300), 3);
}
