use chii::glob::Glob;

#[test]
fn byte_aligned_glob_append() {
    let mut a = Glob::new(8, vec![1]);
    let b = Glob::new(8, vec![2]);
    a.append(b);
    assert_eq!(Glob::new(16, vec![1, 2]), a);
}

#[test]
fn appending_bit_globs() {
    let mut glob = Glob::new(1, vec![0]);
    glob.append(Glob::new(1, vec![0]));
    glob.append(Glob::new(1, vec![0]));
    glob.append(Glob::new(1, vec![1]));
    glob.append(Glob::new(1, vec![1]));
    glob.append(Glob::new(1, vec![0]));
    assert_eq!(Glob::new(6, vec![0b011000]), glob);
}

#[test]
fn appending_variable_width_globs() {
    let mut glob = Glob::new(3, vec![1]);
    glob.append(Glob::new(4, vec![0]));
    glob.append(Glob::new(2, vec![3]));
    assert_eq!(Glob::new(9, vec![0b1_0000_001, 0b1]), glob);
}

#[test]
fn appending_8bit_glob_to_3bit_glob() {
    let mut glob = Glob::new(3, vec![0b100]);
    glob.append(Glob::new(8, vec![0x10]));
    assert_eq!(Glob::new(11, vec![0b10000_100, 0x000]), glob);
}

#[test]
fn appending_3bit_then_4bit() {
    let mut glob = Glob::new(3, vec![0x01]);
    glob.append(Glob::new(4, vec![0x09]));
    assert_eq!(Glob::new(7, vec![0x49]), glob);
}

#[test]
fn append_width_and_length_add_up() {
    let mut a = Glob::new(13, vec![0xff, 0x1f]);
    a.append(Glob::new(13, vec![0xff, 0x1f]));
    assert_eq!(a.width, 26);
    assert_eq!(a.data, vec![0xff, 0xff, 0xff, 0x03]);
}

#[test]
fn new_trims_excess_bytes_and_high_bits() {
    let g = Glob::new(3, vec![0xff, 0x12, 0x34]);
    assert_eq!(g.width, 3);
    assert_eq!(g.data, vec![0x07]);
    let g = Glob::new(16, vec![1, 2, 3, 4]);
    assert_eq!(g.data, vec![1, 2]);
}

#[test]
fn new_pads_a_missing_trailing_byte() {
    let g = Glob::new(7, vec![]);
    assert_eq!(g.data, vec![0]);
    let g = Glob::new(12, vec![0xab]);
    assert_eq!(g.data, vec![0xab, 0]);
}
