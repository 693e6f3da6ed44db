use supervisors::lattice::collapse::{resolve_array, resolve_multiple, SchemaAmbiguity};
use supervisors::lattice::float_key::key_from_int;
use supervisors::lattice::shape::ShapeDescriptor;
use supervisors::lattice::shape::ShapeDescriptor::{
    Array, Boolean, Color, Float, Integer, ListOrEmptyObject, Multiple, Object, Skip, StringSet,
    Unknown,
};

fn key(x: f64) -> i64 {
    let magnitude = x.abs().to_bits() as i64;
    if x < 0.0 {
        -magnitude
    } else {
        magnitude
    }
}

fn strings(texts: &[&str]) -> ShapeDescriptor {
    StringSet(texts.iter().map(|s| s.to_string()).collect())
}

fn object(entries: Vec<(&str, ShapeDescriptor)>) -> ShapeDescriptor {
    Object(entries.into_iter().map(|(k, v)| (k.to_string(), v)).collect())
}

fn whole(min: i64, max: i64) -> ShapeDescriptor {
    Integer { min, max }
}

fn merge(a: &ShapeDescriptor, b: &ShapeDescriptor) -> ShapeDescriptor {
    ShapeDescriptor::merge(a, b)
}

fn collapse(d: &ShapeDescriptor) -> Result<ShapeDescriptor, SchemaAmbiguity> {
    d.collapse(&vec![])
}

/// The descriptor with every string set, every object and every bag put in one order.
fn normal(d: &ShapeDescriptor) -> ShapeDescriptor {
    fn sorted(items: &[ShapeDescriptor]) -> Vec<ShapeDescriptor> {
        let mut out: Vec<ShapeDescriptor> = items.iter().map(normal).collect();
        out.sort_by_key(|d| format!("{d:?}"));
        out
    }
    match d {
        StringSet(texts) => {
            let mut texts = texts.clone();
            texts.sort();
            texts.dedup();
            StringSet(texts)
        }
        Object(entries) => {
            let mut entries: Vec<(String, ShapeDescriptor)> =
                entries.iter().map(|(k, v)| (k.clone(), normal(v))).collect();
            entries.sort_by(|a, b| a.0.cmp(&b.0));
            Object(entries)
        }
        Array(items) => Array(sorted(items)),
        Multiple(items) => Multiple(sorted(items)),
        ListOrEmptyObject(items) => ListOrEmptyObject(sorted(items)),
        other => other.duplicate(),
    }
}

fn samples() -> Vec<ShapeDescriptor> {
    let rgb = object(vec![("r", whole(0, 1)), ("g", whole(0, 1)), ("b", whole(0, 1))]);
    let triple = Array(vec![whole(1, 1), whole(2, 2), whole(3, 3)]);
    vec![
        Unknown,
        Skip,
        Boolean,
        Color,
        whole(2, 5),
        whole(-1, 9),
        Float { min: key(1.5), max: key(3.0) },
        strings(&["a", "b"]),
        strings(&["b", "c"]),
        object(vec![("name", strings(&["x"])), ("size", whole(1, 1))]),
        object(vec![("size", Float { min: key(0.5), max: key(0.5) }), ("tint", rgb.duplicate())]),
        object(vec![]),
        rgb.duplicate(),
        triple.duplicate(),
        Array(vec![whole(1, 1), strings(&["a"])]),
        Array(vec![rgb.duplicate(), triple.duplicate()]),
        Array(vec![]),
        Multiple(vec![whole(1, 2), strings(&["a"])]),
        Multiple(vec![Array(vec![whole(1, 1)]), object(vec![])]),
        Multiple(vec![rgb.duplicate(), triple.duplicate()]),
        Multiple(vec![Array(vec![Boolean]), Boolean]),
        ListOrEmptyObject(vec![whole(1, 1)]),
    ]
}

#[test]
fn merging_commutes_up_to_collapse() {
    let samples = samples();
    for a in &samples {
        for b in &samples {
            let left = collapse(&merge(a, b));
            let right = collapse(&merge(b, a));
            match (left, right) {
                (Ok(x), Ok(y)) => assert_eq!(normal(&x), normal(&y), "{a:?} with {b:?}"),
                (Err(_), Err(_)) => {}
                (x, y) => panic!("{a:?} with {b:?}: {x:?} against {y:?}"),
            }
        }
    }
}

#[test]
fn unknown_is_the_identity() {
    for x in samples() {
        assert_eq!(merge(&Unknown, &x), x);
        assert_eq!(merge(&x, &Unknown), x);
    }
}

#[test]
fn integer_ranges_unite() {
    assert_eq!(merge(&whole(2, 5), &whole(-1, 9)), whole(-1, 9));
    assert_eq!(merge(&whole(2, 5), &whole(3, 4)), whole(2, 5));
    assert_eq!(merge(&whole(2, 5), &whole(7, 9)), whole(2, 9));
}

#[test]
fn integer_range_widens_to_float() {
    let got = merge(&whole(2, 5), &Float { min: key(1.5), max: key(3.0) });
    assert_eq!(got, Float { min: key(1.5), max: key(5.0) });
    let got = merge(&Float { min: key(1.5), max: key(3.0) }, &whole(2, 5));
    assert_eq!(got, Float { min: key(1.5), max: key(5.0) });
    let got = merge(&Float { min: key(-0.25), max: key(0.25) }, &Float { min: key(-3.5), max: key(0.0) });
    assert_eq!(got, Float { min: key(-3.5), max: key(0.25) });
    let got = merge(&whole(-7, -2), &Float { min: key(-2.5), max: key(-2.25) });
    assert_eq!(got, Float { min: key(-7.0), max: key(-2.0) });
}

#[test]
fn float_key_of_an_integer_is_the_key_of_the_nearest_double() {
    let mut cases: Vec<i64> = vec![
        0,
        1,
        -1,
        2,
        3,
        5,
        255,
        -256,
        1 << 52,
        (1 << 52) + 1,
        (1 << 53) - 1,
        1 << 53,
        (1 << 53) + 1,
        (1 << 53) + 2,
        (1 << 53) + 3,
        (1 << 54) + 2,
        (1 << 54) + 6,
        -((1 << 53) + 1),
        i64::MAX,
        i64::MAX - 511,
        i64::MAX - 512,
        i64::MIN,
        i64::MIN + 1,
        1234567890123456789,
        -987654321987654321,
    ];
    for shift in 0..63 {
        cases.push(1i64 << shift);
        cases.push((1i64 << shift) - 1);
        cases.push(-(1i64 << shift) + 1);
        cases.push((1i64 << shift) | 0x5555);
    }
    for i in cases {
        assert_eq!(key_from_int(i), key(i as f64), "{i}");
    }
}

#[test]
fn float_keys_of_integers_ascend() {
    let values: Vec<i64> = vec![i64::MIN, -(1 << 60), -1000, -3, -1, 0, 1, 2, 7, 1 << 40, 1 << 62, i64::MAX];
    for pair in values.windows(2) {
        assert!(key_from_int(pair[0]) <= key_from_int(pair[1]), "{pair:?}");
    }
}

#[test]
fn string_sets_unite() {
    assert_eq!(merge(&strings(&["a", "b"]), &strings(&["b", "c", "a", "d"])), strings(&["a", "b", "c", "d"]));
}

#[test]
fn arrays_put_their_elements_together() {
    let got = merge(&Array(vec![whole(1, 1)]), &Array(vec![Boolean, whole(2, 2)]));
    assert_eq!(got, Array(vec![whole(1, 1), Boolean, whole(2, 2)]));
}

#[test]
fn objects_merge_key_by_key() {
    let a = object(vec![("name", strings(&["x"])), ("size", whole(1, 1))]);
    let b = object(vec![("size", whole(5, 5)), ("order", Boolean), ("name", strings(&["y"]))]);
    assert_eq!(
        merge(&a, &b),
        object(vec![("name", strings(&["x", "y"])), ("size", whole(1, 5)), ("order", Boolean)])
    );
}

#[test]
fn shapes_that_do_not_go_together_become_multiple() {
    assert_eq!(merge(&Boolean, &whole(1, 1)), Multiple(vec![Boolean, whole(1, 1)]));
    assert_eq!(merge(&Skip, &Skip), Multiple(vec![Skip, Skip]));
    assert_eq!(
        merge(&Multiple(vec![Boolean, whole(1, 1)]), &whole(2, 2)),
        Multiple(vec![Boolean, whole(1, 1), whole(2, 2)])
    );
    assert_eq!(
        merge(&whole(2, 2), &Multiple(vec![Boolean])),
        Multiple(vec![whole(2, 2), Multiple(vec![Boolean])])
    );
    assert_eq!(merge(&Boolean, &Boolean), Boolean);
}

#[test]
fn collapse_leaves_plain_shapes() {
    for d in [Unknown, Skip, Boolean, Color, whole(1, 2), strings(&["a"])] {
        assert_eq!(collapse(&d), Ok(d.duplicate()));
    }
}

#[test]
fn collapse_turns_colour_shaped_elements_into_a_colour() {
    let rgb = object(vec![("r", whole(0, 1)), ("g", whole(0, 1)), ("b", whole(0, 1))]);
    let rgba = object(vec![("a", Boolean), ("r", whole(0, 1)), ("g", whole(0, 1)), ("b", whole(0, 1))]);
    let triple = Array(vec![whole(1, 1), whole(2, 2), whole(3, 3)]);
    assert!(rgb.is_color_shaped());
    assert!(rgba.is_color_shaped());
    assert!(triple.is_color_shaped());
    assert!(Color.is_color_shaped());
    assert!(!object(vec![("r", Boolean), ("g", Boolean), ("x", Boolean)]).is_color_shaped());
    assert!(!object(vec![("r", Boolean), ("g", Boolean), ("b", Boolean), ("x", Boolean)]).is_color_shaped());
    assert!(!Array(vec![whole(1, 1), whole(2, 2)]).is_color_shaped());
    assert!(!Array(vec![whole(1, 1), whole(2, 2), Boolean]).is_color_shaped());
    assert_eq!(collapse(&Array(vec![rgb.duplicate(), triple.duplicate()])), Ok(Color));
    assert_eq!(collapse(&Multiple(vec![rgb.duplicate(), rgba.duplicate(), triple.duplicate()])), Ok(Color));
    assert_eq!(collapse(&Array(vec![])), Ok(Array(vec![])));
    assert_eq!(collapse(&triple), Ok(triple.duplicate()));
    assert_eq!(collapse(&rgb), Ok(rgb.duplicate()));
}

#[test]
fn collapse_of_lists_and_empty_objects() {
    let d = Multiple(vec![Array(vec![whole(1, 1), Boolean]), object(vec![]), Array(vec![whole(2, 2)])]);
    assert_eq!(collapse(&d), Ok(ListOrEmptyObject(vec![whole(1, 1), Boolean, whole(2, 2)])));
    assert!(Array(vec![]).is_list_like());
    assert!(object(vec![]).is_list_like());
    assert!(!object(vec![("a", Boolean)]).is_list_like());
}

#[test]
fn collapse_flattens_where_some_members_are_arrays() {
    let d = Multiple(vec![Boolean, Array(vec![whole(1, 1), whole(2, 2)]), strings(&["a"])]);
    assert_eq!(collapse(&d), Ok(Array(vec![Boolean, whole(1, 1), whole(2, 2), strings(&["a"])])));
}

#[test]
fn collapse_fails_on_arrays_beside_empty_objects_beside_a_third_shape() {
    let d = Multiple(vec![Array(vec![whole(1, 1)]), object(vec![]), Boolean]);
    assert_eq!(
        collapse(&d),
        Err(SchemaAmbiguity {
            path: vec![],
            members: vec![Array(vec![whole(1, 1)]), object(vec![]), Boolean],
        })
    );
    let d = Multiple(vec![Array(vec![whole(1, 1)]), object(vec![("a", Skip)]), Boolean]);
    assert_eq!(
        collapse(&d),
        Ok(Array(vec![whole(1, 1), object(vec![("a", Skip)]), Boolean]))
    );
}

#[test]
fn collapse_takes_nested_multiples_apart() {
    let d = Multiple(vec![Array(vec![Boolean]), Multiple(vec![object(vec![]), Multiple(vec![Array(vec![Skip])])])]);
    assert_eq!(collapse(&d), Ok(ListOrEmptyObject(vec![Boolean, Skip])));
}

#[test]
fn collapse_fails_on_what_no_rule_resolves() {
    let d = object(vec![(
        "energy",
        object(vec![("usage", Multiple(vec![whole(1, 2), strings(&["1kW"])]))]),
    )]);
    assert_eq!(
        collapse(&d),
        Err(SchemaAmbiguity {
            path: vec!["energy".to_string(), "usage".to_string()],
            members: vec![whole(1, 2), strings(&["1kW"])],
        })
    );
    assert_eq!(
        collapse(&d).unwrap_err().message(),
        "Unresolved shapes at `energy.usage`: Integer, StringSet"
    );
    assert_eq!(collapse(&Multiple(vec![])).unwrap_err().message(), "Unresolved shapes at ``: ");
    assert!(collapse(&Multiple(vec![])).is_err());
    assert!(collapse(&Array(vec![Multiple(vec![Boolean, Skip])])).is_err());
}

#[test]
fn collapse_skips_dynamic_formulas() {
    let d = object(vec![
        ("count_formula", Multiple(vec![whole(1, 2), strings(&["2^L"])])),
        ("count", whole(1, 2)),
    ]);
    let dynamic = vec!["formula".to_string()];
    assert_eq!(d.collapse(&dynamic), Ok(object(vec![("count_formula", Skip), ("count", whole(1, 2))])));
    assert!(d.collapse(&vec![]).is_err());
    assert!(d.collapse(&vec!["formulas".to_string()]).is_err());
    assert_eq!(
        d.collapse(&vec!["x".to_string(), "count_".to_string()]),
        Ok(object(vec![("count_formula", Skip), ("count", whole(1, 2))]))
    );
    assert_eq!(
        d.collapse(&vec!["".to_string()]),
        Ok(object(vec![("count_formula", Skip), ("count", Skip)]))
    );
}

#[test]
fn variant_names() {
    let names: Vec<&str> = samples().iter().map(|d| d.variant()).collect();
    assert_eq!(&names[..8], ["Unknown", "Skip", "Boolean", "Color", "Integer", "Integer", "Float", "StringSet"]);
    assert_eq!(whole(1, 1).variant(), "Integer");
    assert_eq!(Array(vec![]).variant(), "Array");
    assert_eq!(Multiple(vec![]).variant(), "Multiple");
    assert_eq!(ListOrEmptyObject(vec![]).variant(), "ListOrEmptyObject");
    assert_eq!(object(vec![]).variant(), "Object");
}

#[test]
fn resolving_members_directly() {
    assert_eq!(resolve_array(vec![Color, Color]), Color);
    assert_eq!(resolve_array(vec![Color, Boolean]), Array(vec![Color, Boolean]));
    let path = vec!["a".to_string()];
    assert_eq!(resolve_multiple(vec![Color], &path), Ok(Color));
    assert_eq!(
        resolve_multiple(vec![Boolean, Skip], &path),
        Err(SchemaAmbiguity { path: path.clone(), members: vec![Boolean, Skip] })
    );
}

#[test]
fn well_formed_descriptors_have_no_key_twice() {
    for d in samples() {
        assert!(d.is_well_formed(), "{d:?}");
    }
    let twice = object(vec![("k", Boolean), ("other", Skip), ("k", Color)]);
    assert!(!twice.is_well_formed());
    assert!(!Array(vec![Boolean, twice.duplicate()]).is_well_formed());
    assert!(!Multiple(vec![twice.duplicate()]).is_well_formed());
    assert!(!ListOrEmptyObject(vec![twice.duplicate()]).is_well_formed());
    assert!(!object(vec![("a", twice.duplicate())]).is_well_formed());
    for a in samples() {
        for b in samples() {
            assert!(merge(&a, &b).is_well_formed());
            if let Ok(c) = collapse(&merge(&a, &b)) {
                assert!(c.is_well_formed());
            }
        }
    }
}

#[test]
fn the_first_entry_under_a_key_is_the_one_that_is_merged() {
    let twice = object(vec![("k", whole(1, 1)), ("k", Boolean)]);
    let once = object(vec![("k", whole(5, 5)), ("n", Skip)]);
    assert_eq!(
        merge(&once, &twice),
        object(vec![("k", whole(1, 5)), ("n", Skip)])
    );
    assert_eq!(
        merge(&twice, &once),
        object(vec![("k", whole(1, 5)), ("k", Multiple(vec![Boolean, whole(5, 5)])), ("n", Skip)])
    );
}

#[test]
fn a_second_collapse_changes_nothing() {
    let dynamic = vec!["size".to_string()];
    for a in samples() {
        for b in samples() {
            if let Ok(once) = merge(&a, &b).collapse(&dynamic) {
                assert_eq!(once.collapse(&dynamic), Ok(once.duplicate()), "{a:?} with {b:?}");
                assert_eq!(
                    once.collapse_at(&vec!["x".to_string()], &dynamic),
                    Ok(once.duplicate())
                );
            }
        }
    }
}

struct Dice(u64);

impl Dice {
    fn roll(&mut self, sides: u64) -> u64 {
        self.0 = self.0.wrapping_mul(6364136223846793005).wrapping_add(1442695040888963407);
        (self.0 >> 33) % sides
    }

    fn key(&mut self) -> String {
        ["r", "g", "b", "a", "name", "count_formula"][self.roll(6) as usize].to_string()
    }

    fn shape(&mut self, depth: u32) -> ShapeDescriptor {
        let kinds = if depth == 0 { 7 } else { 11 };
        match self.roll(kinds) {
            0 => Unknown,
            1 => Skip,
            2 => Boolean,
            3 => Color,
            4 => {
                let a = self.roll(9) as i64 - 4;
                whole(a, a + self.roll(3) as i64)
            }
            5 => {
                let a = self.roll(9) as f64 / 2.0 - 2.0;
                Float { min: key(a), max: key(a + self.roll(3) as f64) }
            }
            6 => strings(&[["x", "y", "z"][self.roll(3) as usize]]),
            7 => {
                let mut entries: Vec<(String, ShapeDescriptor)> = Vec::new();
                for _ in 0..self.roll(5) {
                    let key = self.key();
                    if entries.iter().all(|(k, _)| *k != key) {
                        entries.push((key, self.shape(depth - 1)));
                    }
                }
                Object(entries)
            }
            8 => Array((0..self.roll(4)).map(|_| self.shape(depth - 1)).collect()),
            9 => Multiple((0..self.roll(4)).map(|_| self.shape(depth - 1)).collect()),
            _ => ListOrEmptyObject((0..self.roll(3)).map(|_| self.shape(depth - 1)).collect()),
        }
    }
}

#[test]
fn merging_commutes_up_to_collapse_on_many_descriptors() {
    let mut dice = Dice(2024);
    let dynamic = vec!["formula".to_string()];
    let mut resolved = 0;
    for _ in 0..3000 {
        let a = dice.shape(3);
        let b = dice.shape(3);
        assert!(a.is_well_formed() && b.is_well_formed());
        let left = merge(&a, &b).collapse(&dynamic);
        let right = merge(&b, &a).collapse(&dynamic);
        match (left, right) {
            (Ok(x), Ok(y)) => {
                assert_eq!(normal(&x), normal(&y), "{a:?} with {b:?}");
                assert_eq!(x.collapse(&dynamic), Ok(x.duplicate()));
                assert!(x.is_well_formed());
                resolved += 1;
            }
            (Err(_), Err(_)) => {}
            (x, y) => panic!("{a:?} with {b:?}: {x:?} against {y:?}"),
        }
    }
    assert!(resolved > 100);
}
