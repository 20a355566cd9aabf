use ft_winograd::factorization::primitive_root;
use ft_winograd::rader::{cyclic_reverse, rader_gather, rader_scatter};

#[test]
fn rader_gather_reads_powers_of_the_root() {
    // powers of 2 modulo 5: 1, 2, 4, 3
    let data = [10, 11, 12, 13, 14];
    assert_eq!(rader_gather(&data, 5, 2), vec![11, 12, 14, 13]);
    // powers of 3 modulo 7: 1, 3, 2, 6, 4, 5
    let data7 = [0, 1, 2, 3, 4, 5, 6];
    assert_eq!(rader_gather(&data7, 7, 3), vec![1, 3, 2, 6, 4, 5]);
}

#[test]
fn rader_scatter_writes_powers_of_the_root() {
    let mut out = [100, 0, 0, 0, 0];
    rader_scatter(&mut out, &[1, 2, 3, 4], 5, 2);
    // out[1] = 1, out[2] = 2, out[4] = 3, out[3] = 4
    assert_eq!(out, [100, 1, 2, 4, 3]);
}

#[test]
fn rader_scatter_undoes_gather_for_primes() {
    for &p in &[2usize, 3, 5, 7, 11, 13, 17, 97] {
        let g = primitive_root(p).unwrap();
        let data: Vec<usize> = (0..p).map(|i| 1000 + i).collect();
        let gathered = rader_gather(&data, p, g);
        let mut back = vec![0usize; p];
        back[0] = data[0];
        rader_scatter(&mut back, &gathered, p, g);
        assert_eq!(back, data, "p = {}", p);
        // and the other way round
        let vals: Vec<usize> = (0..p - 1).map(|i| 7 * i + 3).collect();
        let mut out = vec![0usize; p];
        rader_scatter(&mut out, &vals, p, g);
        assert_eq!(rader_gather(&out, p, g), vals, "p = {}", p);
        assert_eq!(out[0], 0);
    }
}

#[test]
fn cyclic_reverse_values() {
    assert_eq!(cyclic_reverse(&[1, 2, 3, 4]), vec![1, 4, 3, 2]);
    assert_eq!(cyclic_reverse(&[5]), vec![5]);
    assert_eq!(cyclic_reverse::<i32>(&[]), Vec::<i32>::new());
    let v: Vec<u32> = (0..12).collect();
    assert_eq!(cyclic_reverse(&cyclic_reverse(&v)), v);
}
