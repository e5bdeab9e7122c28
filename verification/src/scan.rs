//! What resolving a table yields when the table is sorted.
//!
//! A table is *sorted* when its keys stand in strictly ascending order, and
//! *linked* when each row names, as the row to fall back to, the row with the
//! longest key that is a proper beginning of its own. On such a table the
//! bisection and the walk along the links try exactly the rows whose patterns
//! stand at the cursor, the longest first: the same rows, in the same order,
//! as a scan of the whole table from its last row to its first.

use vstd::prelude::*;
use vstd::string::*;
use vstd::utf8::*;
use crate::among::{
    among_keys, among_outcome, among_search, among_subject, among_walk, landing, probe_step, Among,
    Probe,
};
use crate::env::EnvState;
use crate::text::{lemma_first_byte_leads, lemma_match_ends_on_boundary};
use crate::order::{
    agree, begins, lemma_agree_shared, lemma_begins_not_after, lemma_between, lemma_extent,
    lemma_lex_total, lemma_lex_transitive, lex_before, shared,
};

verus! {

/// The keys stand in strictly ascending order.
pub open spec fn sorted(keys: Seq<Seq<u8>>) -> bool {
    forall|x: int, y: int|
        0 <= x < y < keys.len() ==> lex_before(#[trigger] keys[x], #[trigger] keys[y])
}

/// `a` is a beginning of `b`, and shorter.
pub open spec fn begins_properly(a: Seq<u8>, b: Seq<u8>) -> bool {
    begins(a, b) && a.len() < b.len()
}

/// Each row links to the row with the longest key that is a proper beginning
/// of its own key; a row whose key has no such beginning in the table links
/// to none.
pub open spec fn linked<T>(table: Seq<Among<T>>, forward: bool) -> bool {
    forall|i: int|
        0 <= i < table.len() ==> {
            let next = (#[trigger] table[i]).1 as int;
            let key = table[i].key(forward);
            &&& next < table.len()
            &&& next >= 0 ==> begins_properly(table[next].key(forward), key)
            &&& forall|r: int|
                0 <= r < table.len() && begins_properly((#[trigger] table[r]).key(forward), key)
                    ==> next >= 0 && table[r].key(forward).len() <= table[next].key(
                    forward,
                ).len()
        }
}

/// A scan of the rows from row `k` down to the first. A row whose key is a
/// beginning of `subject` is tried as the walk along the links tries a row;
/// the others are passed over. The scan ends with the result of the first row
/// that is accepted, or with 0.
pub open spec fn among_scan<T>(
    table: Seq<Among<T>>,
    forward: bool,
    subject: Seq<u8>,
    origin: int,
    k: int,
    env: EnvState,
    context: T,
) -> (int, EnvState, T)
    decreases k + 1,
{
    if k < 0 || k >= table.len() {
        (0, env, context)
    } else {
        let row = table[k];
        let at = landing(origin, row.0.spec_bytes().len() as int, forward);
        if begins(row.key(forward), subject) {
            match row.3 {
                Some(condition) => {
                    let (accepted, e, c) = condition.outcome(env.with_cursor(at), context);
                    if accepted {
                        (row.2 as int, e.with_cursor(at), c)
                    } else {
                        among_scan(table, forward, subject, origin, k - 1, e.with_cursor(at), c)
                    }
                },
                None => (row.2 as int, env.with_cursor(at), context),
            }
        } else {
            among_scan(table, forward, subject, origin, k - 1, env, context)
        }
    }
}

/// What holds between the probes of a sorted table: every row from `high` on
/// sorts after the subject; the lower row, once it has been probed, does not;
/// and the counts of bytes known to agree are the counts of bytes shared.
pub open spec fn probe_inv(keys: Seq<Seq<u8>>, subject: Seq<u8>, p: Probe) -> bool {
    &&& 0 <= p.low <= p.high <= keys.len()
    &&& p.low < keys.len()
    &&& forall|r: int| p.high <= r < keys.len() ==> lex_before(subject, #[trigger] keys[r])
    &&& agree(subject, keys[p.low], p.common_low)
    &&& p.low > 0 ==> !lex_before(subject, keys[p.low])
    &&& p.common_low == 0 && p.low == 0 || (!lex_before(subject, keys[p.low]) && p.common_low
        == shared(subject, keys[p.low]))
    &&& p.high < keys.len() ==> p.common_high == shared(subject, keys[p.high])
    &&& p.high == keys.len() ==> p.common_high == 0
}

/// Where the search of a sorted table ends: on the last row that does not
/// sort after the subject, with the number of bytes that the two share; or,
/// where every row sorts after the subject, on the first row with no byte
/// known to agree.
pub open spec fn found(keys: Seq<Seq<u8>>, subject: Seq<u8>, q: Probe) -> bool {
    &&& 0 <= q.low < keys.len()
    &&& forall|r: int| q.low < r < keys.len() ==> lex_before(subject, #[trigger] keys[r])
    &&& lex_before(subject, keys[q.low]) ==> q.low == 0 && q.common_low == 0
    &&& !lex_before(subject, keys[q.low]) ==> q.common_low == shared(subject, keys[q.low])
}

/// A probe of a sorted table keeps what holds between the probes, and tells
/// of the probed row whether it sorts after the subject.
pub proof fn lemma_probe_step(keys: Seq<Seq<u8>>, subject: Seq<u8>, p: Probe)
    requires
        sorted(keys),
        probe_inv(keys, subject, p),
        p.low < p.high,
    ensures
        probe_inv(keys, subject, probe_step(keys, subject, p)),
        probe_step(keys, subject, p) == if lex_before(subject, keys[p.middle()]) {
            Probe { high: p.middle(), common_high: shared(subject, keys[p.middle()]), ..p }
        } else {
            Probe { low: p.middle(), common_low: shared(subject, keys[p.middle()]), ..p }
        },
{
    let k = p.middle();
    let known = if p.common_low < p.common_high {
        p.common_low
    } else {
        p.common_high
    };
    let key = keys[k];
    assert(agree(subject, key, known)) by {
        if k == p.low || known == 0 {
        } else {
            // the probed row lies between two rows that both begin like the subject
            lemma_extent(subject, keys[p.high], 0);
            lemma_lex_total(keys[p.low], key);
            lemma_lex_total(key, keys[p.high]);
            lemma_between(subject, keys[p.low], key, keys[p.high], known);
        }
    }
    lemma_extent(subject, key, known);
    let q = probe_step(keys, subject, p);
    if lex_before(subject, key) {
        assert forall|r: int| q.high <= r < keys.len() implies lex_before(
            subject,
            #[trigger] keys[r],
        ) by {
            if r > k {
                lemma_lex_transitive(subject, key, keys[r]);
            }
        }
    }
}

/// The search of a sorted table ends as [`found`] says.
pub proof fn lemma_search_found(keys: Seq<Seq<u8>>, subject: Seq<u8>, p: Probe)
    requires
        sorted(keys),
        probe_inv(keys, subject, p),
        p.low < p.high,
        p.first_key_inspected ==> p.low == 0 && p.high == 1,
    ensures
        found(keys, subject, among_search(keys, subject, p)),
    decreases
        2 * (p.high - p.low) + if p.first_key_inspected {
            0int
        } else {
            1int
        },
{
    lemma_probe_step(keys, subject, p);
    let q = probe_step(keys, subject, p);
    if q.done() {
    } else if q.narrow() {
        lemma_search_found(keys, subject, Probe { first_key_inspected: true, ..q });
    } else {
        lemma_search_found(keys, subject, q);
    }
}

/// A proper beginning sorts before what it begins.
pub proof fn lemma_begins_properly_before(a: Seq<u8>, b: Seq<u8>)
    requires
        begins_properly(a, b),
    ensures
        lex_before(a, b),
{
    lemma_agree_shared(a, b, a.len() as int);
    lemma_extent(a, b, 0);
}

/// Rows that do not stand at the cursor are passed over by the scan.
pub proof fn lemma_scan_skips<T>(
    table: Seq<Among<T>>,
    forward: bool,
    subject: Seq<u8>,
    origin: int,
    high: int,
    low: int,
    env: EnvState,
    context: T,
)
    requires
        -1 <= low <= high < table.len(),
        forall|r: int| low < r <= high ==> !begins((#[trigger] table[r]).key(forward), subject),
    ensures
        among_scan(table, forward, subject, origin, high, env, context) == among_scan(
            table,
            forward,
            subject,
            origin,
            low,
            env,
            context,
        ),
    decreases high - low,
{
    if low < high {
        lemma_scan_skips(table, forward, subject, origin, high - 1, low, env, context);
    }
}

/// Row `i` lies on the chain of links that starts at row `top`: its key is a
/// beginning of the key of `top`, and of the rows before it only those whose
/// keys are proper beginnings of its own can stand at the cursor.
pub open spec fn on_chain<T>(
    table: Seq<Among<T>>,
    forward: bool,
    subject: Seq<u8>,
    top: int,
    i: int,
) -> bool {
    &&& 0 <= i <= top < table.len()
    &&& begins(table[i].key(forward), table[top].key(forward))
    &&& forall|r: int|
        0 <= r < i && begins((#[trigger] table[r]).key(forward), subject) ==> begins_properly(
            table[r].key(forward),
            table[i].key(forward),
        )
}

/// From a row on the chain, the link leads to the next row down that can
/// stand at the cursor, and that row lies on the chain too.
proof fn lemma_chain_link<T>(
    table: Seq<Among<T>>,
    forward: bool,
    subject: Seq<u8>,
    top: int,
    i: int,
)
    requires
        sorted(among_keys(table, forward)),
        linked(table, forward),
        on_chain(table, forward, subject, top, i),
    ensures
        table[i].1 < i,
        forall|r: int|
            table[i].1 < r < i && 0 <= r ==> !begins((#[trigger] table[r]).key(forward), subject),
        table[i].1 >= 0 ==> on_chain(table, forward, subject, top, table[i].1 as int),
{
    let keys = among_keys(table, forward);
    let next = table[i].1 as int;
    let key = table[i].key(forward);
    if next >= 0 {
        let below = table[next].key(forward);
        lemma_begins_properly_before(below, key);
        lemma_lex_total(below, key);
        if next > i {
            assert(lex_before(keys[i], keys[next]));
        }
        assert forall|r: int| 0 <= r < next && begins(
            (#[trigger] table[r]).key(forward),
            subject,
        ) implies begins_properly(table[r].key(forward), below) by {
            let early = table[r].key(forward);
            if early.len() == below.len() {
                assert(lex_before(keys[r], keys[next]));
                lemma_lex_total(early, below);
            }
        }
    }
    assert forall|r: int| next < r < i && 0 <= r implies !begins(
        (#[trigger] table[r]).key(forward),
        subject,
    ) by {
        let between = table[r].key(forward);
        if begins(between, subject) {
            let below = table[next].key(forward);
            lemma_begins_not_after(between, below);
            assert(lex_before(keys[next], keys[r]));
        }
    }
}

/// From a row on the chain, the walk along the links and the scan of all
/// rows below agree.
pub proof fn lemma_walk_scans<T>(
    table: Seq<Among<T>>,
    forward: bool,
    subject: Seq<u8>,
    origin: int,
    top: int,
    i: int,
    env: EnvState,
    context: T,
    fuel: nat,
)
    requires
        sorted(among_keys(table, forward)),
        linked(table, forward),
        on_chain(table, forward, subject, top, i),
        !lex_before(subject, table[top].key(forward)),
        fuel > i,
    ensures
        among_walk(
            table,
            i,
            shared(subject, table[top].key(forward)),
            origin,
            forward,
            env,
            context,
            fuel,
        ) == among_scan(table, forward, subject, origin, i, env, context),
    decreases i,
{
    let row = table[i];
    let key = row.key(forward);
    let summit = table[top].key(forward);
    let common = shared(subject, summit);
    let next = row.1 as int;
    let at = landing(origin, row.0.spec_bytes().len() as int, forward);
    // the row stands at the cursor exactly when the walk tries it
    lemma_extent(subject, summit, 0);
    if begins(key, subject) {
        lemma_agree_shared(subject, summit, key.len() as int);
    }
    lemma_chain_link(table, forward, subject, top, i);
    if common >= key.len() {
        match row.3 {
            Some(condition) => {
                let (accepted, e, c) = condition.outcome(env.with_cursor(at), context);
                if !accepted {
                    let after = e.with_cursor(at);
                    if next < 0 {
                        lemma_scan_skips(table, forward, subject, origin, i - 1, -1, after, c);
                    } else {
                        lemma_scan_skips(table, forward, subject, origin, i - 1, next, after, c);
                        lemma_walk_scans(
                            table,
                            forward,
                            subject,
                            origin,
                            top,
                            next,
                            after,
                            c,
                            (fuel - 1) as nat,
                        );
                    }
                }
            },
            None => {},
        }
    } else if next < 0 {
        lemma_scan_skips(table, forward, subject, origin, i - 1, -1, env, context);
    } else {
        lemma_scan_skips(table, forward, subject, origin, i - 1, next, env, context);
        lemma_walk_scans(
            table,
            forward,
            subject,
            origin,
            top,
            next,
            env,
            context,
            (fuel - 1) as nat,
        );
    }
}

/// On a table that is sorted and linked, resolving the table against the
/// environment yields what a scan of all its rows yields, from the last row
/// to the first: the result of the longest pattern that stands at the cursor
/// and whose condition, if it has one, accepts.
pub proof fn lemma_among_scans<T>(
    table: Seq<Among<T>>,
    forward: bool,
    env: EnvState,
    context: T,
)
    requires
        table.len() > 0,
        sorted(among_keys(table, forward)),
        linked(table, forward),
    ensures
        among_outcome(table, forward, env, context) == among_scan(
            table,
            forward,
            among_subject(env, forward),
            env.cursor,
            table.len() - 1,
            env,
            context,
        ),
{
    let keys = among_keys(table, forward);
    let subject = among_subject(env, forward);
    let rows = table.len() as int;
    let start = Probe::start(rows);
    lemma_search_found(keys, subject, start);
    let q = among_search(keys, subject, start);
    let top = q.low;
    let summit = table[top].key(forward);
    assert forall|r: int| top < r <= rows - 1 implies !begins(
        (#[trigger] table[r]).key(forward),
        subject,
    ) by {
        assert(keys[r] == table[r].key(forward));
        if begins(table[r].key(forward), subject) {
            lemma_begins_not_after(table[r].key(forward), subject);
        }
    }
    lemma_scan_skips(table, forward, subject, env.cursor, rows - 1, top, env, context);
    if lex_before(subject, summit) {
        // every row sorts after the subject: none stands at the cursor
        if begins(summit, subject) {
            lemma_begins_not_after(summit, subject);
        }
        let next = table[0].1 as int;
        if next >= 0 {
            lemma_begins_properly_before(table[next].key(forward), summit);
            lemma_lex_total(table[next].key(forward), summit);
            if next > 0 {
                assert(lex_before(keys[0], keys[next]));
            }
        }
        assert(among_walk(table, 0, 0, env.cursor, forward, env, context, table.len()) == (
            0int,
            env,
            context,
        ));
        assert(among_scan(table, forward, subject, env.cursor, 0, env, context) == among_scan(
            table,
            forward,
            subject,
            env.cursor,
            -1,
            env,
            context,
        ));
    } else {
        assert forall|r: int| 0 <= r < top && begins(
            (#[trigger] table[r]).key(forward),
            subject,
        ) implies begins_properly(table[r].key(forward), summit) by {
            let early = table[r].key(forward);
            assert(lex_before(keys[r], keys[top]));
            lemma_lex_total(early, summit);
            lemma_between(early, early, summit, subject, early.len() as int);
        }
        lemma_walk_scans(
            table,
            forward,
            subject,
            env.cursor,
            top,
            top,
            env,
            context,
            table.len(),
        );
    }
}

/// No row of the table has a condition.
pub open spec fn unconditional<T>(table: Seq<Among<T>>) -> bool {
    forall|k: int| 0 <= k < table.len() ==> (#[trigger] table[k]).3 is None
}

/// Where the pattern of a row stands at the cursor, the place after it (or,
/// backward, before it) lies in the region between the limits, on a
/// boundary: with the cursor there the region invariant holds.
pub proof fn lemma_landing_in_region<T>(row: Among<T>, forward: bool, env: EnvState)
    requires
        env.wf(),
        begins(row.key(forward), among_subject(env, forward)),
    ensures
        env.with_cursor(landing(env.cursor, row.0.spec_bytes().len() as int, forward)).wf(),
{
    let pattern = row.0.spec_bytes();
    let len = pattern.len() as int;
    let subject = among_subject(env, forward);
    encode_utf8_valid_utf8(row.0@);
    if forward {
        assert(env.text.subrange(env.cursor, env.cursor + len) =~= pattern);
        lemma_match_ends_on_boundary(env.text, env.cursor, pattern);
    } else if len > 0 {
        lemma_first_byte_leads(pattern);
        assert(subject[len - 1] == env.text[env.cursor - len]);
    }
}

/// The scan of a table without conditions leaves the text, the limits and
/// the bracket alone and keeps the region invariant.
pub proof fn lemma_scan_unconditional<T>(
    table: Seq<Among<T>>,
    forward: bool,
    k: int,
    env: EnvState,
    context: T,
)
    requires
        env.wf(),
        unconditional(table),
        k < table.len(),
    ensures
        ({
            let (result, after, c) = among_scan(
                table,
                forward,
                among_subject(env, forward),
                env.cursor,
                k,
                env,
                context,
            );
            &&& after.wf()
            &&& after == env.with_cursor(after.cursor)
            &&& c == context
        }),
    decreases k + 1,
{
    if k >= 0 {
        if begins(table[k].key(forward), among_subject(env, forward)) {
            lemma_landing_in_region(table[k], forward, env);
        } else {
            lemma_scan_unconditional(table, forward, k - 1, env, context);
        }
    }
}

} // verus!
