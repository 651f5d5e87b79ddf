use cube_solver::turndef::Turn;

#[test]
fn test_to_base_turns() {
    assert_eq!(Turn::from_name("R").unwrap().to_base_turns(),
        vec![Turn::right()]
    );
    assert_eq!(Turn::from_name("R2").unwrap().to_base_turns(),
        vec![Turn::right(), Turn::right()]
    );
    assert_eq!(Turn::from_name("R'").unwrap().to_base_turns(),
        vec![Turn::right(), Turn::right(), Turn::right()]
    );
    assert_eq!(Turn::from_name("M'").unwrap().to_base_turns(),
        vec![Turn::middle()]
    );
    assert_eq!(Turn::from_name("M2").unwrap().to_base_turns(),
        vec![Turn::middle(), Turn::middle()]
    );
    assert_eq!(Turn::from_name("M").unwrap().to_base_turns(),
        vec![Turn::middle(), Turn::middle(), Turn::middle()]
    );
    assert_eq!(Turn::from_name("L'").unwrap().to_base_turns(),
        vec![Turn::left()]
    );
    assert_eq!(Turn::from_name("L2").unwrap().to_base_turns(),
        vec![Turn::left(), Turn::left()]
    );
    assert_eq!(Turn::from_name("L").unwrap().to_base_turns(),
        vec![Turn::left(), Turn::left(), Turn::left()]
    );
    assert_eq!(Turn::from_name("U").unwrap().to_base_turns(),
        vec![Turn::up()]
    );
    assert_eq!(Turn::from_name("U2").unwrap().to_base_turns(),
        vec![Turn::up(), Turn::up()]
    );
    assert_eq!(Turn::from_name("U'").unwrap().to_base_turns(),
        vec![Turn::up(), Turn::up(), Turn::up()]
    );
    assert_eq!(Turn::from_name("E").unwrap().to_base_turns(),
        vec![Turn::equator()]
    );
    assert_eq!(Turn::from_name("E2").unwrap().to_base_turns(),
        vec![Turn::equator(), Turn::equator()]
    );
    assert_eq!(Turn::from_name("E'").unwrap().to_base_turns(),
        vec![Turn::equator(), Turn::equator(), Turn::equator()]
    );
    assert_eq!(Turn::from_name("D'").unwrap().to_base_turns(),
        vec![Turn::down()]
    );
    assert_eq!(Turn::from_name("D2").unwrap().to_base_turns(),
        vec![Turn::down(), Turn::down()]
    );
    assert_eq!(Turn::from_name("D").unwrap().to_base_turns(),
        vec![Turn::down(), Turn::down(), Turn::down()]
    );
    assert_eq!(Turn::from_name("F").unwrap().to_base_turns(),
        vec![Turn::front()]
    );
    assert_eq!(Turn::from_name("F2").unwrap().to_base_turns(),
        vec![Turn::front(), Turn::front()]
    );
    assert_eq!(Turn::from_name("F'").unwrap().to_base_turns(),
        vec![Turn::front(), Turn::front(), Turn::front()]
    );
    assert_eq!(Turn::from_name("S").unwrap().to_base_turns(),
        vec![Turn::slice()]
    );
    assert_eq!(Turn::from_name("S2").unwrap().to_base_turns(),
        vec![Turn::slice(), Turn::slice()]
    );
    assert_eq!(Turn::from_name("S'").unwrap().to_base_turns(),
        vec![Turn::slice(), Turn::slice(), Turn::slice()]
    );
    assert_eq!(Turn::from_name("B'").unwrap().to_base_turns(),
        vec![Turn::back()]
    );
    assert_eq!(Turn::from_name("B2").unwrap().to_base_turns(),
        vec![Turn::back(), Turn::back()]
    );
    assert_eq!(Turn::from_name("B").unwrap().to_base_turns(),
        vec![Turn::back(), Turn::back(), Turn::back()]
    );
    assert_eq!(Turn::from_name("x").unwrap().to_base_turns(),
        vec![Turn::left(), Turn::middle(), Turn::right()]
    );
    assert_eq!(Turn::from_name("x2").unwrap().to_base_turns(),
        vec![Turn::left(), Turn::left(), Turn::middle(), Turn::middle(), Turn::right(), Turn::right()]
    );
    assert_eq!(Turn::from_name("x'").unwrap().to_base_turns(),
        vec![Turn::left(), Turn::left(), Turn::left(), Turn::middle(), Turn::middle(), Turn::middle(), Turn::right(), Turn::right(), Turn::right()]
    );
    assert_eq!(Turn::from_name("y").unwrap().to_base_turns(),
        vec![Turn::down(), Turn::equator(), Turn::up()]
    );
    assert_eq!(Turn::from_name("y2").unwrap().to_base_turns(),
        vec![Turn::down(), Turn::down(), Turn::equator(), Turn::equator(), Turn::up(), Turn::up()]
    );
    assert_eq!(Turn::from_name("y'").unwrap().to_base_turns(),
        vec![Turn::down(), Turn::down(), Turn::down(), Turn::equator(), Turn::equator(), Turn::equator(), Turn::up(), Turn::up(), Turn::up()]
    );
    assert_eq!(Turn::from_name("z").unwrap().to_base_turns(),
        vec![Turn::back(), Turn::slice(), Turn::front()]
    );
    assert_eq!(Turn::from_name("z2").unwrap().to_base_turns(),
        vec![Turn::back(), Turn::back(), Turn::slice(), Turn::slice(), Turn::front(), Turn::front()]
    );
    assert_eq!(Turn::from_name("z'").unwrap().to_base_turns(),
        vec![Turn::back(), Turn::back(), Turn::back(), Turn::slice(), Turn::slice(), Turn::slice(), Turn::front(), Turn::front(), Turn::front()]
    );
    assert_eq!(Turn::from_name("r").unwrap().to_base_turns(),
        vec![Turn::middle(), Turn::right()]
    );
    assert_eq!(Turn::from_name("r2").unwrap().to_base_turns(),
        vec![Turn::middle(), Turn::middle(), Turn::right(), Turn::right()]
    );
    assert_eq!(Turn::from_name("r'").unwrap().to_base_turns(),
        vec![Turn::middle(), Turn::middle(), Turn::middle(), Turn::right(), Turn::right(), Turn::right()]
    );
    assert_eq!(Turn::from_name("l'").unwrap().to_base_turns(),
        vec![Turn::left(), Turn::middle()]
    );
    assert_eq!(Turn::from_name("l2").unwrap().to_base_turns(),
        vec![Turn::left(), Turn::left(), Turn::middle(), Turn::middle()]
    );
    assert_eq!(Turn::from_name("l").unwrap().to_base_turns(),
        vec![Turn::left(), Turn::left(), Turn::left(), Turn::middle(), Turn::middle(), Turn::middle()]
    );
    assert_eq!(Turn::from_name("u").unwrap().to_base_turns(),
        vec![Turn::equator(), Turn::up()]
    );
    assert_eq!(Turn::from_name("u2").unwrap().to_base_turns(),
        vec![Turn::equator(), Turn::equator(), Turn::up(), Turn::up()]
    );
    assert_eq!(Turn::from_name("u'").unwrap().to_base_turns(),
        vec![Turn::equator(), Turn::equator(), Turn::equator(), Turn::up(), Turn::up(), Turn::up()]
    );
    assert_eq!(Turn::from_name("d'").unwrap().to_base_turns(),
        vec![Turn::down(), Turn::equator()]
    );
    assert_eq!(Turn::from_name("d2").unwrap().to_base_turns(),
        vec![Turn::down(), Turn::down(), Turn::equator(), Turn::equator()]
    );
    assert_eq!(Turn::from_name("d").unwrap().to_base_turns(),
        vec![Turn::down(), Turn::down(), Turn::down(), Turn::equator(), Turn::equator(), Turn::equator()]
    );
    assert_eq!(Turn::from_name("f").unwrap().to_base_turns(),
        vec![Turn::slice(), Turn::front()]
    );
    assert_eq!(Turn::from_name("f2").unwrap().to_base_turns(),
        vec![Turn::slice(), Turn::slice(), Turn::front(), Turn::front()]
    );
    assert_eq!(Turn::from_name("f'").unwrap().to_base_turns(),
        vec![Turn::slice(), Turn::slice(), Turn::slice(), Turn::front(), Turn::front(), Turn::front()]
    );
    assert_eq!(Turn::from_name("b'").unwrap().to_base_turns(),
        vec![Turn::back(), Turn::slice()]
    );
    assert_eq!(Turn::from_name("b2").unwrap().to_base_turns(),
        vec![Turn::back(), Turn::back(), Turn::slice(), Turn::slice()]
    );
    assert_eq!(Turn::from_name("b").unwrap().to_base_turns(),
        vec![Turn::back(), Turn::back(), Turn::back(), Turn::slice(), Turn::slice(), Turn::slice()]
    );
    assert_eq!(Turn::from_name("lr_mirror").unwrap().to_base_turns(),
        vec![Turn::lr_mirror()]
    );
    assert_eq!(Turn::from_name("ud_mirror").unwrap().to_base_turns(),
        vec![Turn::ud_mirror()]
    );
    assert_eq!(Turn::from_name("fb_mirror").unwrap().to_base_turns(),
        vec![Turn::fb_mirror()]
    );

}
