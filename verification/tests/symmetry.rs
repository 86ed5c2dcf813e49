use chaosymmetry::symmetry::Symmetry;

#[test]
fn degrees_come_back_unchanged() {
    assert_eq!(Symmetry::Cyclic(5).get_degree(), 5);
    assert_eq!(Symmetry::Dihedral(7).get_degree(), 7);
}

#[test]
fn cyclic_draws_stay_in_the_group_and_never_reflect() {
    let sym = Symmetry::Cyclic(5);
    for _ in 0..1000 {
        let (k, reflect) = sym.draw_transform();
        assert!(k < 5);
        assert!(!reflect);
    }
}

#[test]
fn cyclic_single_rotation_is_deterministic() {
    // With one rotation the only possible draw is the identity.
    let sym = Symmetry::Cyclic(1);
    for _ in 0..100 {
        assert_eq!(sym.draw_transform(), (0, false));
    }
}

#[test]
fn cyclic_draws_cover_every_rotation() {
    // Each of the n rotation angles is drawn: the output lies exactly on
    // the group's n angles and, over many samples, visits them all.
    let sym = Symmetry::Cyclic(4);
    let mut seen = [false; 4];
    for _ in 0..1000 {
        let (k, _) = sym.draw_transform();
        assert!(k < 4);
        seen[k as usize] = true;
    }
    assert_eq!(seen, [true; 4]);
}

#[test]
fn dihedral_reflects_about_half_the_time() {
    let sym = Symmetry::Dihedral(3);
    let mut reflected: u32 = 0;
    let samples: u32 = 10_000;
    for _ in 0..samples {
        let (k, reflect) = sym.draw_transform();
        assert!(k < 3);
        if reflect {
            reflected += 1;
        }
    }
    // A fair coin over 10k samples stays far inside these loose bounds.
    assert!(reflected > 3_000, "too few reflections: {}", reflected);
    assert!(reflected < 7_000, "too many reflections: {}", reflected);
}
