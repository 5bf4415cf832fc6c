use rsk::draws::{typed_draws, Draw};

fn next(state: &mut u64) -> u64 {
    *state = state.wrapping_mul(6364136223846793005).wrapping_add(1442695040888963407);
    *state >> 33
}

fn types(list: &[&str]) -> Vec<String> {
    list.iter().map(|t| t.to_string()).collect()
}

#[test]
fn typed_draws_follow_the_generator_field_by_field() {
    let rows = typed_draws(&types(&["bool", "int", "string", "mystery"]), 2, 7, false, 10);
    assert_eq!(rows.len(), 2);
    let mut st = 7u64;
    for row in &rows {
        assert_eq!(row.len(), 4);
        let b = next(&mut st) % 2 == 0;
        assert!(matches!(row[0], Draw::Bool(x) if x == b));
        let n = (next(&mut st) as i64) % 2001 - 1000;
        assert!(matches!(row[1], Draw::Int(x) if x == n));
        let len = next(&mut st) % 10 + 1;
        let text: String = (0..len).map(|_| (b'a' + (next(&mut st) % 26) as u8) as char).collect();
        match &row[2] {
            Draw::Str(s) => assert_eq!(s, &text),
            other => panic!("expected a string, got {:?}", other),
        }
        let m = (next(&mut st) as i64) % 2001 - 1000;
        assert!(matches!(row[3], Draw::Int(x) if x == m));
    }
}

#[test]
fn typed_draws_floats_without_edges_are_grid_points() {
    let rows = typed_draws(&types(&["float"]), 50, 3, false, 20);
    let mut st = 3u64;
    for row in &rows {
        let k = next(&mut st) % 200001;
        assert!(matches!(row[0], Draw::Grid(x) if x == k));
    }
}

#[test]
fn typed_draws_floats_with_edges_hit_edge_cases() {
    let rows = typed_draws(&types(&["float"]), 400, 11, true, 20);
    let mut st = 11u64;
    let mut edges = 0;
    for row in &rows {
        let choice = next(&mut st) % 100;
        match row[0] {
            Draw::Nan => {
                assert!(choice < 3);
                edges += 1;
            }
            Draw::PosInf => {
                assert!((3..5).contains(&choice));
                edges += 1;
            }
            Draw::NegInf => {
                assert!((5..7).contains(&choice));
                edges += 1;
            }
            Draw::Zero => {
                assert!((7..10).contains(&choice));
                edges += 1;
            }
            Draw::Grid(k) => {
                assert!(choice >= 10);
                assert_eq!(k, next(&mut st) % 200001);
            }
            ref other => panic!("expected a float draw, got {:?}", other),
        }
    }
    assert!(edges > 0);
}

#[test]
fn typed_draws_are_reproducible_and_strings_bounded() {
    let a = typed_draws(&types(&["string", "int"]), 30, 99, true, 4);
    let b = typed_draws(&types(&["string", "int"]), 30, 99, true, 4);
    assert_eq!(format!("{:?}", a), format!("{:?}", b));
    for row in &a {
        match &row[0] {
            Draw::Str(s) => assert!(!s.is_empty() && s.len() <= 4 && s.chars().all(|c| c.is_ascii_lowercase())),
            other => panic!("expected a string, got {:?}", other),
        }
    }
    assert!(typed_draws(&types(&[]), 3, 1, true, 5).iter().all(|r| r.is_empty()));
}
