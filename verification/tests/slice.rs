use snowball::SnowballEnv;

fn offsets(env: &SnowballEnv) -> (i32, i32, i32, i32, i32) {
    (env.cursor, env.limit, env.limit_backward, env.bra, env.ket)
}

fn region_holds(env: &SnowballEnv) -> bool {
    0 <= env.limit_backward
        && env.limit_backward <= env.cursor
        && env.cursor <= env.limit
        && env.limit as usize <= env.current.len()
        && env.current.is_char_boundary(env.limit_backward as usize)
        && env.current.is_char_boundary(env.cursor as usize)
        && env.current.is_char_boundary(env.limit as usize)
}

#[test]
fn slice_from_same_length_keeps_limit() {
    let mut env = SnowballEnv::create("abcdef");
    env.bra = 1;
    env.ket = 3;
    assert!(env.slice_from("XY"));
    assert_eq!(env.current, "aXYdef");
    assert_eq!(env.limit, 6);
}

#[test]
fn slice_from_shorter_shrinks_limit_and_moves_cursor() {
    let mut env = SnowballEnv::create("abcdef");
    env.bra = 1;
    env.ket = 3;
    env.cursor = 4;
    assert!(env.slice_from("X"));
    assert_eq!(env.current, "aXdef");
    assert_eq!(env.limit, 5);
    assert_eq!(env.cursor, 3);
}

#[test]
fn slice_from_longer_grows_limit_and_moves_cursor() {
    let mut env = SnowballEnv::create("abcdef");
    env.bra = 1;
    env.ket = 3;
    env.cursor = 3;
    assert!(env.slice_from("WXYZ"));
    assert_eq!(env.current, "aWXYZdef");
    assert_eq!(env.limit, 8);
    assert_eq!(env.cursor, 5);
}

#[test]
fn slice_from_cursor_inside_falls_to_bra() {
    let mut env = SnowballEnv::create("abcdef");
    env.bra = 1;
    env.ket = 4;
    env.cursor = 2;
    assert!(env.slice_from("XY"));
    assert_eq!(env.current, "aXYef");
    assert_eq!(env.cursor, 1);
    assert_eq!(env.limit, 5);
}

#[test]
fn slice_from_cursor_before_stays() {
    let mut env = SnowballEnv::create("abcdef");
    env.bra = 2;
    env.ket = 4;
    env.cursor = 2;
    assert!(env.slice_from(""));
    assert_eq!(env.current, "abef");
    assert_eq!(env.cursor, 2);
    env.cursor = 1;
    env.bra = 2;
    env.ket = 3;
    assert!(env.slice_from("zzz"));
    assert_eq!(env.current, "abzzzf");
    assert_eq!(env.cursor, 1);
}

#[test]
fn slice_from_leaves_bracket_and_backward_limit() {
    let mut env = SnowballEnv::create("abcdef");
    env.bra = 1;
    env.ket = 3;
    env.limit_backward = 1;
    env.cursor = 1;
    assert!(env.slice_from("X"));
    assert_eq!(offsets(&env), (1, 5, 1, 1, 3));
}

#[test]
fn slice_from_wide_code_points() {
    let mut env = SnowballEnv::create("café");
    env.bra = 3;
    env.ket = 5;
    env.cursor = 5;
    assert!(env.slice_from("e"));
    assert_eq!(env.current, "cafe");
    assert_eq!(env.limit, 4);
    assert_eq!(env.cursor, 4);
    env.bra = 0;
    env.ket = 1;
    assert!(env.slice_from("ç"));
    assert_eq!(env.current, "çafe");
    assert_eq!(env.limit, 5);
    assert_eq!(env.cursor, 5);
}

#[test]
fn slice_from_what_the_slice_holds_changes_nothing() {
    for cursor in [0, 1, 3, 5, 6] {
        let mut env = SnowballEnv::create("abcdef");
        env.bra = 1;
        env.ket = 3;
        env.cursor = cursor;
        let slice = env.slice_to();
        assert_eq!(slice, "bc");
        assert!(env.slice_from(&slice));
        assert_eq!(env.current, "abcdef");
        assert_eq!(offsets(&env), (cursor, 6, 0, 1, 3));
    }
}

#[test]
fn slice_from_what_the_slice_holds_with_cursor_inside() {
    let mut env = SnowballEnv::create("abcdef");
    env.bra = 1;
    env.ket = 3;
    env.cursor = 2;
    assert!(env.slice_from("bc"));
    assert_eq!(env.current, "abcdef");
    assert_eq!(offsets(&env), (1, 6, 0, 1, 3));
}

#[test]
fn slice_del_removes_the_slice() {
    let mut env = SnowballEnv::create("running");
    env.bra = 4;
    env.ket = 7;
    env.cursor = 7;
    assert!(env.slice_del());
    assert_eq!(env.current, "runn");
    assert_eq!(env.limit, 4);
    assert_eq!(env.cursor, 4);
}

#[test]
fn slice_del_of_empty_slice_changes_nothing() {
    let mut env = SnowballEnv::create("abc");
    env.bra = 2;
    env.ket = 2;
    env.cursor = 3;
    assert!(env.slice_del());
    assert_eq!(env.current, "abc");
    assert_eq!(offsets(&env), (3, 3, 0, 2, 2));
}

#[test]
fn slice_del_of_everything() {
    let mut env = SnowballEnv::create("abc");
    env.cursor = 3;
    assert!(env.slice_del());
    assert_eq!(env.current, "");
    assert_eq!((env.cursor, env.limit), (0, 0));
}

#[test]
fn insert_before_the_bracket_moves_it() {
    let mut env = SnowballEnv::create("abcdef");
    env.bra = 2;
    env.ket = 4;
    env.cursor = 6;
    env.insert(1, 1, "XY");
    assert_eq!(env.current, "aXYbcdef");
    assert_eq!(offsets(&env), (8, 8, 0, 4, 6));
}

#[test]
fn insert_at_the_start_of_the_bracket_moves_it() {
    let mut env = SnowballEnv::create("abcdef");
    env.bra = 2;
    env.ket = 4;
    env.insert(2, 2, "X");
    assert_eq!(env.current, "abXcdef");
    assert_eq!((env.bra, env.ket), (3, 5));
}

#[test]
fn insert_inside_the_bracket_moves_its_end() {
    let mut env = SnowballEnv::create("abcdef");
    env.bra = 2;
    env.ket = 4;
    env.insert(3, 3, "XY");
    assert_eq!(env.current, "abcXYdef");
    assert_eq!((env.bra, env.ket), (2, 6));
}

#[test]
fn insert_at_the_end_of_the_bracket_moves_its_end() {
    let mut env = SnowballEnv::create("abcdef");
    env.bra = 2;
    env.ket = 4;
    env.insert(4, 4, "X");
    assert_eq!(env.current, "abcdXef");
    assert_eq!((env.bra, env.ket), (2, 5));
}

#[test]
fn insert_behind_the_bracket_leaves_it() {
    let mut env = SnowballEnv::create("abcdef");
    env.bra = 2;
    env.ket = 4;
    env.insert(5, 5, "XY");
    assert_eq!(env.current, "abcdeXYf");
    assert_eq!((env.bra, env.ket), (2, 4));
    assert_eq!(env.limit, 8);
}

#[test]
fn insert_replacing_a_slice_before_the_bracket() {
    let mut env = SnowballEnv::create("abcdef");
    env.bra = 4;
    env.ket = 6;
    env.cursor = 3;
    env.insert(0, 3, "Z");
    assert_eq!(env.current, "Zdef");
    assert_eq!(offsets(&env), (1, 4, 0, 2, 4));
}

#[test]
fn insert_moves_the_cursor_as_a_replacement_does() {
    let mut env = SnowballEnv::create("abcdef");
    env.cursor = 1;
    env.insert(2, 2, "XY");
    assert_eq!(env.cursor, 1);
    env.cursor = 2;
    env.insert(2, 2, "Q");
    assert_eq!(env.current, "abQXYcdef");
    assert_eq!(env.cursor, 3);
}

#[test]
fn edits_keep_the_region_in_order() {
    let mut env = SnowballEnv::create("naïveté");
    assert!(region_holds(&env));
    env.cursor = 4;
    env.bra = 2;
    env.ket = 4;
    assert!(env.slice_from("i"));
    assert_eq!(env.current, "naiveté");
    assert_eq!(offsets(&env), (3, 8, 0, 2, 4));
    assert!(region_holds(&env));
    env.insert(2, 2, "€");
    assert_eq!(env.current, "na€iveté");
    assert_eq!(offsets(&env), (6, 11, 0, 5, 7));
    assert!(region_holds(&env));
    env.bra = env.cursor;
    env.ket = env.limit;
    assert!(env.slice_del());
    assert_eq!(env.current, "na€i");
    assert_eq!(offsets(&env), (6, 6, 0, 6, 11));
    assert!(region_holds(&env));
    env.insert(0, 2, "éé");
    assert_eq!(env.current, "éé€i");
    assert_eq!((env.cursor, env.limit, env.limit_backward), (8, 8, 0));
    assert!(region_holds(&env));
    env.cursor = 4;
    env.limit_backward = 4;
    env.insert(4, 7, "");
    assert_eq!(env.current, "ééi");
    assert_eq!((env.cursor, env.limit, env.limit_backward), (4, 5, 4));
    assert!(region_holds(&env));
}

#[test]
fn assign_to_returns_the_text_up_to_the_limit() {
    let mut env = SnowballEnv::create("running");
    env.limit = 3;
    assert_eq!(env.assign_to(), "run");
    assert_eq!(env.current, "running");
    assert_eq!(offsets(&env), (0, 3, 0, 0, 7));
}

#[test]
fn assign_to_of_the_whole_word() {
    let mut env = SnowballEnv::create("café");
    assert_eq!(env.assign_to(), "café");
    env.limit = 0;
    assert_eq!(env.assign_to(), "");
}

#[test]
fn slice_to_returns_the_bracketed_slice() {
    let mut env = SnowballEnv::create("café au lait");
    env.bra = 2;
    env.ket = 8;
    assert_eq!(env.slice_to(), "fé au");
    assert_eq!(env.current, "café au lait");
    assert_eq!(offsets(&env), (0, 13, 0, 2, 8));
}

#[test]
fn slice_to_of_fresh_environment_is_the_word() {
    let mut env = SnowballEnv::create("word");
    assert_eq!(env.slice_to(), "word");
    env.bra = 4;
    assert_eq!(env.slice_to(), "");
}
