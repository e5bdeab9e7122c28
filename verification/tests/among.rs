use snowball::{Among, Condition, EnvState, SnowballEnv};

struct Context {
    calls: u32,
}

struct Reject;

impl Condition<Context> for Reject {
    fn outcome(&self, _env: EnvState, _context: Context) -> (bool, EnvState, Context) {
        unreachable!()
    }

    fn call(&self, _env: &mut SnowballEnv, context: &mut Context) -> bool {
        context.calls += 1;
        false
    }
}

struct Accept;

impl Condition<Context> for Accept {
    fn outcome(&self, _env: EnvState, _context: Context) -> (bool, EnvState, Context) {
        unreachable!()
    }

    fn call(&self, _env: &mut SnowballEnv, context: &mut Context) -> bool {
        context.calls += 1;
        true
    }
}

#[test]
fn find_among_takes_the_longest_pattern() {
    let table: [Among<Context>; 3] =
        [Among("a", -1, 1, None), Among("ab", -1, 2, None), Among("abc", -1, 3, None)];
    let mut env = SnowballEnv::create("abcd");
    let mut context = Context { calls: 0 };
    assert_eq!(env.cursor, 0);
    assert_eq!(env.limit, 4);
    assert_eq!(env.find_among(&table, &mut context), 3);
    assert_eq!(env.cursor, 3);
    assert_eq!(context.calls, 0);
}

#[test]
fn find_among_rejected_row_without_fallback() {
    let table: [Among<Context>; 3] =
        [Among("a", -1, 1, None), Among("ab", -1, 2, None), Among("abc", -1, 3, Some(&Reject))];
    let mut env = SnowballEnv::create("abcd");
    let mut context = Context { calls: 0 };
    assert_eq!(env.find_among(&table, &mut context), 0);
    assert_eq!(env.cursor, 3);
    assert_eq!(context.calls, 1);
}

#[test]
fn find_among_rejected_row_falls_back() {
    let table: [Among<Context>; 3] =
        [Among("a", -1, 1, None), Among("ab", 0, 2, None), Among("abc", 1, 3, Some(&Reject))];
    let mut env = SnowballEnv::create("abcd");
    let mut context = Context { calls: 0 };
    assert_eq!(env.find_among(&table, &mut context), 2);
    assert_eq!(env.cursor, 2);
    assert_eq!(context.calls, 1);
}

#[test]
fn find_among_accepting_condition() {
    let table: [Among<Context>; 3] =
        [Among("a", -1, 1, None), Among("ab", 0, 2, None), Among("abc", 1, 3, Some(&Accept))];
    let mut env = SnowballEnv::create("abcd");
    let mut context = Context { calls: 0 };
    assert_eq!(env.find_among(&table, &mut context), 3);
    assert_eq!(env.cursor, 3);
    assert_eq!(context.calls, 1);
}

struct MoveAway;

impl Condition<Context> for MoveAway {
    fn outcome(&self, _env: EnvState, _context: Context) -> (bool, EnvState, Context) {
        unreachable!()
    }

    fn call(&self, env: &mut SnowballEnv, context: &mut Context) -> bool {
        context.calls += 1;
        env.cursor = env.limit_backward;
        env.bra = 1;
        true
    }
}

struct MoveAwayAndReject;

impl Condition<Context> for MoveAwayAndReject {
    fn outcome(&self, _env: EnvState, _context: Context) -> (bool, EnvState, Context) {
        unreachable!()
    }

    fn call(&self, env: &mut SnowballEnv, context: &mut Context) -> bool {
        context.calls += 1;
        env.cursor = env.limit_backward;
        false
    }
}

struct AtLeastThree;

impl Condition<Context> for AtLeastThree {
    fn outcome(&self, _env: EnvState, _context: Context) -> (bool, EnvState, Context) {
        unreachable!()
    }

    fn call(&self, env: &mut SnowballEnv, context: &mut Context) -> bool {
        context.calls += 1;
        env.cursor >= 3
    }
}

fn sorted_table() -> [Among<Context>; 7] {
    [
        Among("a", -1, 1, None),
        Among("ab", 0, 2, None),
        Among("abc", 1, 3, None),
        Among("abd", 1, 4, None),
        Among("b", -1, 5, None),
        Among("bc", 4, 6, None),
        Among("c", -1, 7, None),
    ]
}

fn sorted_table_with_empty_row() -> [Among<Context>; 8] {
    [
        Among("", -1, 1, None),
        Among("a", 0, 2, None),
        Among("ab", 1, 3, None),
        Among("abc", 2, 4, None),
        Among("abd", 2, 5, None),
        Among("b", 0, 6, None),
        Among("bc", 5, 7, None),
        Among("c", 0, 8, None),
    ]
}

fn sorted_table_with_conditions() -> [Among<Context>; 7] {
    [
        Among("a", -1, 1, Some(&Reject)),
        Among("ab", 0, 2, None),
        Among("abc", 1, 3, Some(&Reject)),
        Among("abd", 1, 4, Some(&Accept)),
        Among("b", -1, 5, Some(&Reject)),
        Among("bc", 4, 6, Some(&Reject)),
        Among("c", -1, 7, None),
    ]
}

fn sorted_suffix_table() -> [Among<Context>; 7] {
    [
        Among("a", -1, 1, None),
        Among("ba", 0, 2, None),
        Among("cba", 1, 3, Some(&Reject)),
        Among("dba", 1, 4, None),
        Among("b", -1, 5, None),
        Among("cb", 4, 6, Some(&Reject)),
        Among("c", -1, 7, None),
    ]
}

/// All words over "abcd" of up to `max` letters.
fn words(max: usize) -> Vec<String> {
    let mut all = vec![String::new()];
    let mut last = vec![String::new()];
    for _ in 0..max {
        let mut next = Vec::new();
        for word in &last {
            for letter in ["a", "b", "c", "d"] {
                next.push(format!("{}{}", word, letter));
            }
        }
        all.extend(next.iter().cloned());
        last = next;
    }
    all
}

/// Tries every row from the last to the first, as long as none is accepted;
/// `accepts` tells for a row whether its condition accepts.
fn scan_forward(
    table: &[Among<Context>],
    text: &str,
    cursor: usize,
    limit: usize,
    accepts: &[bool],
) -> (i32, usize) {
    let mut at = cursor;
    for (row, accepted) in table.iter().zip(accepts).rev() {
        if text[cursor..limit].starts_with(row.0) {
            at = cursor + row.0.len();
            if *accepted {
                return (row.2, at);
            }
        }
    }
    (0, at)
}

fn scan_backward(
    table: &[Among<Context>],
    text: &str,
    cursor: usize,
    limit_backward: usize,
    accepts: &[bool],
) -> (i32, usize) {
    let mut at = cursor;
    for (row, accepted) in table.iter().zip(accepts).rev() {
        if text[limit_backward..cursor].ends_with(row.0) {
            at = cursor - row.0.len();
            if *accepted {
                return (row.2, at);
            }
        }
    }
    (0, at)
}

#[test]
fn find_among_equals_a_scan_of_all_rows() {
    let table = sorted_table();
    let accepts = [true; 7];
    for word in words(4) {
        for cursor in 0..=word.len() {
            for limit in cursor..=word.len() {
                let mut env = SnowballEnv::create(&word);
                env.cursor = cursor as i32;
                env.limit = limit as i32;
                let mut context = Context { calls: 0 };
                let result = env.find_among(&table, &mut context);
                let expected = scan_forward(&table, &word, cursor, limit, &accepts);
                assert_eq!((result, env.cursor as usize), expected);
                assert_eq!(env.limit as usize, limit);
                assert_eq!(env.current, word.as_str());
            }
        }
    }
}

#[test]
fn find_among_with_an_empty_pattern_equals_a_scan() {
    let table = sorted_table_with_empty_row();
    let accepts = [true; 8];
    for word in words(4) {
        let mut env = SnowballEnv::create(&word);
        let mut context = Context { calls: 0 };
        let result = env.find_among(&table, &mut context);
        let expected = scan_forward(&table, &word, 0, word.len(), &accepts);
        assert_eq!((result, env.cursor as usize), expected);
        assert!(result != 0);
    }
}

#[test]
fn find_among_with_conditions_equals_a_scan() {
    let table = sorted_table_with_conditions();
    let accepts = [false, true, false, true, false, false, true];
    for word in words(4) {
        for cursor in 0..=word.len() {
            let mut env = SnowballEnv::create(&word);
            env.cursor = cursor as i32;
            let mut context = Context { calls: 0 };
            let result = env.find_among(&table, &mut context);
            let expected = scan_forward(&table, &word, cursor, word.len(), &accepts);
            assert_eq!((result, env.cursor as usize), expected);
        }
    }
}

#[test]
fn find_among_b_equals_a_scan_of_all_rows() {
    let table = sorted_suffix_table();
    let accepts = [true, true, false, true, true, false, true];
    for word in words(4) {
        for limit_backward in 0..=word.len() {
            for cursor in limit_backward..=word.len() {
                let mut env = SnowballEnv::create(&word);
                env.cursor = cursor as i32;
                env.limit_backward = limit_backward as i32;
                let mut context = Context { calls: 0 };
                let result = env.find_among_b(&table, &mut context);
                let expected = scan_backward(&table, &word, cursor, limit_backward, &accepts);
                assert_eq!((result, env.cursor as usize), expected);
                assert_eq!(env.limit_backward as usize, limit_backward);
                assert_eq!(env.current, word.as_str());
            }
        }
    }
}

#[test]
fn find_among_no_row_matches() {
    let table = sorted_table();
    let mut env = SnowballEnv::create("dab");
    let mut context = Context { calls: 0 };
    assert_eq!(env.find_among(&table, &mut context), 0);
    assert_eq!(env.cursor, 0);
}

#[test]
fn find_among_stops_at_the_limit() {
    let table = sorted_table();
    let mut env = SnowballEnv::create("abc");
    env.limit = 2;
    let mut context = Context { calls: 0 };
    assert_eq!(env.find_among(&table, &mut context), 2);
    assert_eq!(env.cursor, 2);
}

#[test]
fn find_among_single_row() {
    let table: [Among<Context>; 1] = [Among("a", -1, 9, None)];
    let mut context = Context { calls: 0 };
    let mut env = SnowballEnv::create("ab");
    assert_eq!(env.find_among(&table, &mut context), 9);
    assert_eq!(env.cursor, 1);
    let mut env = SnowballEnv::create("ba");
    assert_eq!(env.find_among(&table, &mut context), 0);
    assert_eq!(env.cursor, 0);
    let mut env = SnowballEnv::create("");
    assert_eq!(env.find_among(&table, &mut context), 0);
    assert_eq!(env.cursor, 0);
}

#[test]
fn find_among_first_row_of_two() {
    let table: [Among<Context>; 2] = [Among("a", -1, 1, None), Among("b", -1, 2, None)];
    let mut context = Context { calls: 0 };
    let mut env = SnowballEnv::create("a");
    assert_eq!(env.find_among(&table, &mut context), 1);
    assert_eq!(env.cursor, 1);
    let mut env = SnowballEnv::create("b");
    assert_eq!(env.find_among(&table, &mut context), 2);
    assert_eq!(env.cursor, 1);
}

#[test]
fn find_among_wide_code_points() {
    let table: [Among<Context>; 3] =
        [Among("e", -1, 1, None), Among("é", -1, 2, None), Among("ée", 1, 3, None)];
    let mut context = Context { calls: 0 };
    let mut env = SnowballEnv::create("café");
    env.cursor = 3;
    assert_eq!(env.find_among(&table, &mut context), 2);
    assert_eq!(env.cursor, 5);
    let mut env = SnowballEnv::create("fée");
    env.cursor = 1;
    assert_eq!(env.find_among(&table, &mut context), 3);
    assert_eq!(env.cursor, 4);
}

#[test]
fn find_among_on_an_unsorted_table_follows_the_bisection() {
    let table: [Among<Context>; 2] = [Among("b", -1, 1, None), Among("a", -1, 2, None)];
    let mut context = Context { calls: 0 };
    let mut env = SnowballEnv::create("a");
    assert_eq!(env.find_among(&table, &mut context), 2);
    assert_eq!(env.cursor, 1);
    // the bisection ends on the row "a", from which no link leads to "b"
    let mut env = SnowballEnv::create("b");
    assert_eq!(env.find_among(&table, &mut context), 0);
    assert_eq!(env.cursor, 0);
}

#[test]
fn find_among_puts_the_cursor_back_after_a_condition() {
    let table: [Among<Context>; 2] = [Among("a", -1, 1, None), Among("ab", 0, 2, Some(&MoveAway))];
    let mut context = Context { calls: 0 };
    let mut env = SnowballEnv::create("xabc");
    env.cursor = 1;
    assert_eq!(env.find_among(&table, &mut context), 2);
    assert_eq!(env.cursor, 3);
    assert_eq!(env.bra, 1);
    assert_eq!(context.calls, 1);
}

#[test]
fn find_among_puts_the_cursor_back_after_a_rejection() {
    let table: [Among<Context>; 1] = [Among("ab", -1, 2, Some(&MoveAwayAndReject))];
    let mut context = Context { calls: 0 };
    let mut env = SnowballEnv::create("xabc");
    env.cursor = 1;
    assert_eq!(env.find_among(&table, &mut context), 0);
    assert_eq!(env.cursor, 3);
}

#[test]
fn find_among_hands_the_condition_the_cursor_after_the_pattern() {
    let table: [Among<Context>; 3] = [
        Among("a", -1, 1, Some(&AtLeastThree)),
        Among("ab", 0, 2, Some(&AtLeastThree)),
        Among("abc", 1, 3, Some(&AtLeastThree)),
    ];
    let mut context = Context { calls: 0 };
    let mut env = SnowballEnv::create("abcd");
    assert_eq!(env.find_among(&table, &mut context), 3);
    assert_eq!(context.calls, 1);
    let mut env = SnowballEnv::create("abd");
    assert_eq!(env.find_among(&table, &mut context), 0);
    assert_eq!(env.cursor, 1);
    assert_eq!(context.calls, 3);
}

#[test]
fn find_among_b_takes_the_longest_suffix() {
    let table: [Among<Context>; 3] =
        [Among("s", -1, 1, None), Among("es", 0, 2, None), Among("ies", 1, 3, None)];
    let mut context = Context { calls: 0 };
    let mut env = SnowballEnv::create("ponies");
    env.cursor = 6;
    assert_eq!(env.find_among_b(&table, &mut context), 3);
    assert_eq!(env.cursor, 3);
    let mut env = SnowballEnv::create("boxes");
    env.cursor = 5;
    assert_eq!(env.find_among_b(&table, &mut context), 2);
    assert_eq!(env.cursor, 3);
    let mut env = SnowballEnv::create("cats");
    env.cursor = 4;
    assert_eq!(env.find_among_b(&table, &mut context), 1);
    assert_eq!(env.cursor, 3);
    let mut env = SnowballEnv::create("cat");
    env.cursor = 3;
    assert_eq!(env.find_among_b(&table, &mut context), 0);
    assert_eq!(env.cursor, 3);
}

#[test]
fn find_among_b_stops_at_the_backward_limit() {
    let table: [Among<Context>; 3] =
        [Among("s", -1, 1, None), Among("es", 0, 2, None), Among("ies", 1, 3, None)];
    let mut context = Context { calls: 0 };
    let mut env = SnowballEnv::create("ies");
    env.cursor = 3;
    env.limit_backward = 1;
    assert_eq!(env.find_among_b(&table, &mut context), 2);
    assert_eq!(env.cursor, 1);
    env.cursor = 3;
    env.limit_backward = 3;
    assert_eq!(env.find_among_b(&table, &mut context), 0);
    assert_eq!(env.cursor, 3);
}

#[test]
fn find_among_b_rejected_row_falls_back() {
    let table: [Among<Context>; 3] =
        [Among("s", -1, 1, None), Among("es", 0, 2, None), Among("ies", 1, 3, Some(&Reject))];
    let mut context = Context { calls: 0 };
    let mut env = SnowballEnv::create("ponies");
    env.cursor = 6;
    assert_eq!(env.find_among_b(&table, &mut context), 2);
    assert_eq!(env.cursor, 4);
    assert_eq!(context.calls, 1);
}

#[test]
fn find_among_b_rejected_row_without_fallback() {
    let table: [Among<Context>; 3] =
        [Among("s", -1, 1, None), Among("es", -1, 2, None), Among("ies", -1, 3, Some(&Reject))];
    let mut context = Context { calls: 0 };
    let mut env = SnowballEnv::create("ponies");
    env.cursor = 6;
    assert_eq!(env.find_among_b(&table, &mut context), 0);
    assert_eq!(env.cursor, 3);
}

#[test]
fn find_among_b_wide_code_points() {
    let table: [Among<Context>; 2] = [Among("é", -1, 1, None), Among("té", 0, 2, None)];
    let mut context = Context { calls: 0 };
    let mut env = SnowballEnv::create("été");
    env.cursor = 5;
    assert_eq!(env.find_among_b(&table, &mut context), 2);
    assert_eq!(env.cursor, 2);
    env.limit_backward = 2;
    assert_eq!(env.find_among_b(&table, &mut context), 0);
    env.limit_backward = 0;
    assert_eq!(env.find_among_b(&table, &mut context), 1);
    assert_eq!(env.cursor, 0);
}

#[test]
fn find_among_leaves_bracket_and_limits() {
    let table = sorted_table();
    let mut context = Context { calls: 0 };
    let mut env = SnowballEnv::create("abcabc");
    env.bra = 2;
    env.ket = 5;
    env.limit_backward = 0;
    assert_eq!(env.find_among(&table, &mut context), 3);
    assert_eq!((env.limit, env.limit_backward, env.bra, env.ket), (6, 0, 2, 5));
}
