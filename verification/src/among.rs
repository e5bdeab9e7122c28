//! Tables of affixes and their resolution against the text.
//!
//! A table is searched by bisection. The search keeps, for its lower and its
//! upper row, how many bytes of that row's pattern are known to agree with the
//! text, and compares each probed row only beyond the smaller of the two. From
//! the row that the search ends on, the links of the table are followed until
//! a row is accepted or the chain ends.
//!
//! Both directions share one description. The *subject* is what the patterns
//! are compared with, in the order in which it is read: the text from the
//! cursor to the limit, or, backward, the text from the cursor down to the
//! backward limit. The *key* of a row is its pattern in the same reading
//! order.

use vstd::prelude::*;
use vstd::string::*;
use crate::env::{EnvState, SnowballEnv};
use crate::scan::{
    among_scan, lemma_among_scans, lemma_scan_unconditional, linked, sorted, unconditional,
};

verus! {

/// The condition attached to a row of a table: it decides, with the
/// environment positioned after the row's pattern, whether the row is
/// accepted. It may scan and edit the environment and update the context of
/// the program.
///
/// Conditions are written by the authors of stemming programs. All that is
/// asked of one is that what it decides and leaves behind depends on nothing
/// but the state of the environment and the context that it is given:
/// `outcome` names that dependence, and says nothing of what a condition
/// does. A condition may be handed any environment, and owes none in return.
/// Of a condition that is not itself verified, the contract of `call` is
/// taken on trust by everything that is proved of a table that holds it.
pub trait Condition<T>: Sync {
    /// What a call decides and leaves behind, as a function of the state of
    /// the environment and the context that it is given.
    spec fn outcome(&self, env: EnvState, context: T) -> (bool, EnvState, T);

    /// Runs the condition: whether the row is accepted.
    fn call(&self, env: &mut SnowballEnv, context: &mut T) -> (accepted: bool)
        ensures
            (accepted, final(env)@, *final(context)) == self.outcome(old(env)@, *old(context)),
    ;
}

/// A row of a table: the pattern, the row to fall back to (negative for
/// none), the result reported when the row is accepted, and an optional
/// condition.
#[verifier::reject_recursive_types(T)]
pub struct Among<T: 'static>(
    pub &'static str,
    pub i32,
    pub i32,
    pub Option<&'static dyn Condition<T>>,
);

impl<T> Among<T> {
    /// The pattern's bytes in reading order: as written when scanning
    /// forward, reversed when scanning backward.
    pub open spec fn key(&self, forward: bool) -> Seq<u8> {
        if forward {
            self.0.spec_bytes()
        } else {
            self.0.spec_bytes().reverse()
        }
    }
}

/// The keys of a table, row by row.
pub open spec fn among_keys<T>(table: Seq<Among<T>>, forward: bool) -> Seq<Seq<u8>> {
    Seq::new(table.len(), |k: int| table[k].key(forward))
}

/// What a scan from the cursor reads, in reading order.
pub open spec fn among_subject(env: EnvState, forward: bool) -> Seq<u8> {
    if forward {
        env.text.subrange(env.cursor, env.limit)
    } else {
        env.text.subrange(env.limit_backward, env.cursor).reverse()
    }
}

/// Following the links from row `i` leaves the table within `fuel` steps.
pub open spec fn chain_ends<T>(table: Seq<Among<T>>, i: int, fuel: nat) -> bool
    decreases fuel,
{
    i < 0 || (i < table.len() && fuel > 0 && chain_ends(table, table[i].1 as int, (fuel - 1) as nat))
}

/// A table that can be searched: it has a row, its sizes fit the offset
/// type, and from every row the links lead out of the table without
/// returning to a row.
pub open spec fn among_table_ok<T>(table: Seq<Among<T>>) -> bool {
    &&& 0 < table.len() <= i32::MAX
    &&& forall|i: int|
        0 <= i < table.len() ==> (#[trigger] table[i]).0.spec_bytes().len() <= i32::MAX
    &&& forall|i: int| 0 <= i < table.len() ==> #[trigger] chain_ends(table, i, table.len())
}

/// Where every row links to an earlier row or to none, the links lead out of
/// the table from every row.
pub proof fn lemma_descending_links_end<T>(table: Seq<Among<T>>)
    requires
        forall|i: int| 0 <= i < table.len() ==> (#[trigger] table[i]).1 < i,
    ensures
        forall|i: int| 0 <= i < table.len() ==> #[trigger] chain_ends(table, i, table.len()),
{
    assert forall|i: int| 0 <= i < table.len() implies #[trigger] chain_ends(
        table,
        i,
        table.len(),
    ) by {
        lemma_descending_chain_ends(table, i, table.len());
    }
}

proof fn lemma_descending_chain_ends<T>(table: Seq<Among<T>>, i: int, fuel: nat)
    requires
        forall|i: int| 0 <= i < table.len() ==> (#[trigger] table[i]).1 < i,
        i < table.len(),
        i < fuel,
    ensures
        chain_ends(table, i, fuel),
    decreases fuel,
{
    if i >= 0 {
        lemma_descending_chain_ends(table, table[i].1 as int, (fuel - 1) as nat);
    }
}

/// The number of leading bytes on which `key` agrees with `subject`, given
/// that the first `from` are taken to agree.
pub open spec fn match_extent(subject: Seq<u8>, key: Seq<u8>, from: int) -> int
    decreases key.len() - from,
{
    if 0 <= from < key.len() && from < subject.len() && subject[from] == key[from] {
        match_extent(subject, key, from + 1)
    } else {
        from
    }
}

/// Having agreed on the first `at` bytes, `subject` sorts before `key`: the
/// key goes on where the subject ends or holds a smaller byte.
pub open spec fn sorts_before(subject: Seq<u8>, key: Seq<u8>, at: int) -> bool {
    0 <= at < key.len() && (at >= subject.len() || subject[at] < key[at])
}

/// The state of the bisection: the rows `low` and `high` that enclose the
/// answer, the number of bytes known to agree with each, and whether the
/// extra probe of the first row has been scheduled.
pub struct Probe {
    pub low: int,
    pub high: int,
    pub common_low: int,
    pub common_high: int,
    pub first_key_inspected: bool,
}

impl Probe {
    /// The state before the first probe of a table of `rows` rows.
    pub open spec fn start(rows: int) -> Probe {
        Probe { low: 0, high: rows, common_low: 0, common_high: 0, first_key_inspected: false }
    }

    /// The row probed next.
    pub open spec fn middle(self) -> int {
        self.low + (self.high - self.low) / 2
    }

    /// The rows have closed in on each other.
    pub open spec fn narrow(self) -> bool {
        self.high - self.low <= 1
    }

    /// The search stops in this state: the rows have closed in, and the
    /// first row is not owed its extra probe.
    pub open spec fn done(self) -> bool {
        self.narrow() && (self.low > 0 || self.high == self.low || self.first_key_inspected)
    }
}

/// One probe: the middle row is compared with the subject beyond what is
/// known to agree, and replaces the upper row if the subject sorts before
/// it, the lower row otherwise.
pub open spec fn probe_step(keys: Seq<Seq<u8>>, subject: Seq<u8>, p: Probe) -> Probe {
    let k = p.middle();
    let known = if p.common_low < p.common_high {
        p.common_low
    } else {
        p.common_high
    };
    let common = match_extent(subject, keys[k], known);
    if sorts_before(subject, keys[k], common) {
        Probe { high: k, common_high: common, ..p }
    } else {
        Probe { low: k, common_low: common, ..p }
    }
}

/// The state in which the bisection stops when continued from `p`. When the
/// rows close in on the first row without its having been the lower row of a
/// probe, it is probed once more.
pub open spec fn among_search(keys: Seq<Seq<u8>>, subject: Seq<u8>, p: Probe) -> Probe
    decreases
        2 * (p.high - p.low) + if p.first_key_inspected {
            0int
        } else {
            1int
        },
{
    if p.high <= p.low {
        p
    } else {
        let q = probe_step(keys, subject, p);
        if q.done() {
            q
        } else if q.narrow() {
            among_search(keys, subject, Probe { first_key_inspected: true, ..q })
        } else {
            among_search(keys, subject, q)
        }
    }
}

/// Where the cursor stands once a pattern of `len` bytes has been taken at
/// `origin`.
pub open spec fn landing(origin: int, len: int, forward: bool) -> int {
    if forward {
        origin + len
    } else {
        origin - len
    }
}

/// The walk along the links, from row `i`, with `common` bytes of the
/// subject known to agree with the row that the search ended on.
///
/// A row whose key is no longer than `common` is tried: the cursor is put
/// after its pattern and its condition, if it has one, is run; whatever the
/// condition did to the cursor is then undone. A row without a condition, or
/// whose condition accepts, ends the walk with the row's result. Otherwise
/// the walk goes on with the row that the link names, and ends with 0 when
/// there is none. At most `fuel` rows are visited.
pub open spec fn among_walk<T>(
    table: Seq<Among<T>>,
    i: int,
    common: int,
    origin: int,
    forward: bool,
    env: EnvState,
    context: T,
    fuel: nat,
) -> (int, EnvState, T)
    decreases fuel,
{
    if fuel == 0 || !(0 <= i < table.len()) {
        (0, env, context)
    } else {
        let row = table[i];
        let at = landing(origin, row.0.spec_bytes().len() as int, forward);
        let next = row.1 as int;
        if common >= row.0.spec_bytes().len() {
            match row.3 {
                Some(condition) => {
                    let (accepted, e, c) = condition.outcome(env.with_cursor(at), context);
                    if accepted {
                        (row.2 as int, e.with_cursor(at), c)
                    } else if next < 0 {
                        (0, e.with_cursor(at), c)
                    } else {
                        among_walk(
                            table,
                            next,
                            common,
                            origin,
                            forward,
                            e.with_cursor(at),
                            c,
                            (fuel - 1) as nat,
                        )
                    }
                },
                None => (row.2 as int, env.with_cursor(at), context),
            }
        } else if next < 0 {
            (0, env, context)
        } else {
            among_walk(table, next, common, origin, forward, env, context, (fuel - 1) as nat)
        }
    }
}

/// What resolving a table against the environment yields: the result, the
/// state of the environment and the context afterwards.
pub open spec fn among_outcome<T>(
    table: Seq<Among<T>>,
    forward: bool,
    env: EnvState,
    context: T,
) -> (int, EnvState, T) {
    let found = among_search(
        among_keys(table, forward),
        among_subject(env, forward),
        Probe::start(table.len() as int),
    );
    among_walk(
        table,
        found.low,
        found.common_low,
        env.cursor,
        forward,
        env,
        context,
        table.len(),
    )
}

/// The environment can be scanned from its cursor: the cursor lies in the
/// text, and the limit of the direction of the scan lies between the cursor
/// and that end of the text.
pub open spec fn among_region_ok(env: EnvState, forward: bool) -> bool {
    if forward {
        0 <= env.cursor <= env.limit <= env.text.len()
    } else {
        0 <= env.limit_backward <= env.cursor <= env.text.len()
    }
}

/// What more is known of [`among_outcome`] on a table that is sorted and
/// linked: it is the outcome of a scan of all rows, and, where no row has a
/// condition, it keeps the region invariant.
spec fn on_proper_tables<T>(table: Seq<Among<T>>, forward: bool, env: EnvState, context: T) -> bool {
    let outcome = among_outcome(table, forward, env, context);
    sorted(among_keys(table, forward)) && linked(table, forward) ==> {
        &&& outcome == among_scan(
            table,
            forward,
            among_subject(env, forward),
            env.cursor,
            table.len() - 1,
            env,
            context,
        )
        &&& env.wf() && unconditional(table) ==> outcome.1.wf()
    }
}

proof fn lemma_on_proper_tables<T>(table: Seq<Among<T>>, forward: bool, env: EnvState, context: T)
    requires
        table.len() > 0,
    ensures
        on_proper_tables(table, forward, env, context),
{
    if sorted(among_keys(table, forward)) && linked(table, forward) {
        lemma_among_scans(table, forward, env, context);
        if env.wf() && unconditional(table) {
            lemma_scan_unconditional(table, forward, table.len() - 1, env, context);
        }
    }
}

impl<'a> SnowballEnv<'a> {
    /// Resolves `amongs` against the text that follows the cursor.
    ///
    /// Returns the result of the row that was accepted, with the cursor after
    /// its pattern, or 0 when no row was accepted. The rows that are tried,
    /// and their order, are those of [`among_outcome`]; on a table that is
    /// sorted and linked these are the rows whose patterns follow the cursor,
    /// the longest first.
    pub fn find_among<T>(&mut self, amongs: &[Among<T>], context: &mut T) -> (r: i32)
        requires
            among_table_ok(amongs@),
            among_region_ok(old(self)@, true),
        ensures
            (r as int, final(self)@, *final(context)) == among_outcome(
                amongs@,
                true,
                old(self)@,
                *old(context),
            ),
            sorted(among_keys(amongs@, true)) && linked(amongs@, true) ==> (
                r as int,
                final(self)@,
                *final(context),
            ) == among_scan(
                amongs@,
                true,
                among_subject(old(self)@, true),
                old(self)@.cursor,
                amongs@.len() - 1,
                old(self)@,
                *old(context),
            ),
            old(self).wf() && sorted(among_keys(amongs@, true)) && linked(amongs@, true)
                && unconditional(amongs@) ==> final(self).wf(),
    {
        proof {
            lemma_on_proper_tables(amongs@, true, self@, *context);
        }
        let mut i: i32 = 0;
        let mut j: i32 = amongs.len() as i32;

        let c = self.cursor;
        let l = self.limit;

        let mut common_i: i32 = 0;
        let mut common_j: i32 = 0;

        let mut first_key_inspected = false;

        let ghost keys = among_keys(amongs@, true);
        let ghost subject = among_subject(self@, true);
        let ghost found = among_search(keys, subject, Probe::start(amongs@.len() as int));
        let text = self.text().as_bytes();
        loop
            invariant_except_break
                0 <= i < j <= amongs@.len(),
                among_search(
                    keys,
                    subject,
                    Probe {
                        low: i as int,
                        high: j as int,
                        common_low: common_i as int,
                        common_high: common_j as int,
                        first_key_inspected,
                    },
                ) == found,
            invariant
                among_table_ok(amongs@),
                keys == among_keys(amongs@, true),
                0 <= c <= l <= text@.len(),
                subject == text@.subrange(c as int, l as int),
                0 <= common_i <= l - c,
                0 <= common_j <= l - c,
            ensures
                0 <= i < amongs@.len(),
                found.low == i,
                found.common_low == common_i,
            decreases
                2 * (j - i) + if first_key_inspected {
                    0int
                } else {
                    1int
                },
        {
            let d: i32 = j - i;
            assert(d >> 1 == d / 2) by (bit_vector)
                requires
                    d >= 0,
            ;
            let k = i + (d >> 1);
            let mut diff: i32 = 0;
            let mut common = if common_i < common_j {
                common_i
            } else {
                common_j
            };
            let w = &amongs[k as usize];
            let pattern = w.0.as_bytes();
            let ghost known = common as int;
            while common < pattern.len() as i32
                invariant_except_break
                    diff == 0,
                invariant
                    0 <= c <= l <= text@.len(),
                    subject == text@.subrange(c as int, l as int),
                    pattern@.len() <= i32::MAX,
                    0 <= common <= l - c,
                    match_extent(subject, pattern@, common as int) == match_extent(
                        subject,
                        pattern@,
                        known,
                    ),
                ensures
                    common == match_extent(subject, pattern@, known),
                    (diff < 0) == sorts_before(subject, pattern@, common as int),
                decreases pattern@.len() - common,
            {
                if c + common == l {
                    diff = -1;
                    break ;
                }
                diff = text[(c + common) as usize] as i32 - pattern[common as usize] as i32;
                if diff != 0 {
                    break ;
                }
                common += 1;
            }
            if diff < 0 {
                j = k;
                common_j = common;
            } else {
                i = k;
                common_i = common;
            }
            if j - i <= 1 {
                if i > 0 {
                    break ;
                }
                if j == i {
                    break ;
                }
                if first_key_inspected {
                    break ;
                }
                first_key_inspected = true;
            }
        }

        let ghost mut fuel: nat = amongs@.len();
        loop
            invariant
                among_table_ok(amongs@),
                0 <= i < amongs@.len(),
                chain_ends(amongs@, i as int, fuel),
                0 <= c,
                0 <= common_i,
                c + common_i <= i32::MAX,
                among_walk(amongs@, i as int, common_i as int, c as int, true, self@, *context, fuel)
                    == among_outcome(amongs@, true, old(self)@, *old(context)),
                on_proper_tables(amongs@, true, old(self)@, *old(context)),
            decreases fuel,
        {
            let w = &amongs[i as usize];
            if common_i >= w.0.len() as i32 {
                self.cursor = c + w.0.len() as i32;
                if let Some(method) = w.3 {
                    let res = method.call(self, context);
                    self.cursor = c + w.0.len() as i32;
                    if res {
                        return w.2;
                    }
                } else {
                    return w.2;
                }
            }
            i = w.1;
            if i < 0 {
                return 0;
            }
            proof {
                fuel = (fuel - 1) as nat;
                assert(chain_ends(amongs@, i as int, fuel));
            }
        }
    }

    /// Resolves `amongs` against the text that precedes the cursor, read
    /// backward from it.
    ///
    /// Returns the result of the row that was accepted, with the cursor before
    /// its pattern, or 0 when no row was accepted. The rows that are tried,
    /// and their order, are those of [`among_outcome`]; on a table that is
    /// sorted and linked these are the rows whose patterns precede the
    /// cursor, the longest first.
    pub fn find_among_b<T>(&mut self, amongs: &[Among<T>], context: &mut T) -> (r: i32)
        requires
            among_table_ok(amongs@),
            among_region_ok(old(self)@, false),
        ensures
            (r as int, final(self)@, *final(context)) == among_outcome(
                amongs@,
                false,
                old(self)@,
                *old(context),
            ),
            sorted(among_keys(amongs@, false)) && linked(amongs@, false) ==> (
                r as int,
                final(self)@,
                *final(context),
            ) == among_scan(
                amongs@,
                false,
                among_subject(old(self)@, false),
                old(self)@.cursor,
                amongs@.len() - 1,
                old(self)@,
                *old(context),
            ),
            old(self).wf() && sorted(among_keys(amongs@, false)) && linked(amongs@, false)
                && unconditional(amongs@) ==> final(self).wf(),
    {
        proof {
            lemma_on_proper_tables(amongs@, false, self@, *context);
        }
        let mut i: i32 = 0;
        let mut j: i32 = amongs.len() as i32;

        let c = self.cursor;
        let lb = self.limit_backward;

        let mut common_i: i32 = 0;
        let mut common_j: i32 = 0;

        let mut first_key_inspected = false;

        let ghost keys = among_keys(amongs@, false);
        let ghost subject = among_subject(self@, false);
        let ghost found = among_search(keys, subject, Probe::start(amongs@.len() as int));
        let text = self.text().as_bytes();
        loop
            invariant_except_break
                0 <= i < j <= amongs@.len(),
                among_search(
                    keys,
                    subject,
                    Probe {
                        low: i as int,
                        high: j as int,
                        common_low: common_i as int,
                        common_high: common_j as int,
                        first_key_inspected,
                    },
                ) == found,
            invariant
                among_table_ok(amongs@),
                keys == among_keys(amongs@, false),
                0 <= lb <= c <= text@.len(),
                subject == text@.subrange(lb as int, c as int).reverse(),
                0 <= common_i <= c - lb,
                0 <= common_j <= c - lb,
            ensures
                0 <= i < amongs@.len(),
                found.low == i,
                found.common_low == common_i,
            decreases
                2 * (j - i) + if first_key_inspected {
                    0int
                } else {
                    1int
                },
        {
            let d: i32 = j - i;
            assert(d >> 1 == d / 2) by (bit_vector)
                requires
                    d >= 0,
            ;
            let k = i + (d >> 1);
            let mut diff: i32 = 0;
            let mut common = if common_i < common_j {
                common_i
            } else {
                common_j
            };
            let w = &amongs[k as usize];
            let pattern = w.0.as_bytes();
            let ghost known = common as int;
            let ghost key = pattern@.reverse();
            while common < pattern.len() as i32
                invariant_except_break
                    diff == 0,
                invariant
                    0 <= lb <= c <= text@.len(),
                    subject == text@.subrange(lb as int, c as int).reverse(),
                    pattern@.len() <= i32::MAX,
                    0 <= common <= c - lb,
                    key == pattern@.reverse(),
                    match_extent(subject, key, common as int) == match_extent(subject, key, known),
                ensures
                    common == match_extent(subject, key, known),
                    (diff < 0) == sorts_before(subject, key, common as int),
                decreases pattern@.len() - common,
            {
                if c - common == lb {
                    diff = -1;
                    break ;
                }
                diff = text[(c - common - 1) as usize] as i32 - pattern[pattern.len() - 1
                    - common as usize] as i32;
                if diff != 0 {
                    break ;
                }
                common += 1;
            }
            if diff < 0 {
                j = k;
                common_j = common;
            } else {
                i = k;
                common_i = common;
            }
            if j - i <= 1 {
                if i > 0 {
                    break ;
                }
                if j == i {
                    break ;
                }
                if first_key_inspected {
                    break ;
                }
                first_key_inspected = true;
            }
        }

        let ghost mut fuel: nat = amongs@.len();
        loop
            invariant
                among_table_ok(amongs@),
                0 <= i < amongs@.len(),
                chain_ends(amongs@, i as int, fuel),
                0 <= c,
                0 <= common_i,
                common_i <= c,
                among_walk(amongs@, i as int, common_i as int, c as int, false, self@, *context, fuel)
                    == among_outcome(amongs@, false, old(self)@, *old(context)),
                on_proper_tables(amongs@, false, old(self)@, *old(context)),
            decreases fuel,
        {
            let w = &amongs[i as usize];
            if common_i >= w.0.len() as i32 {
                self.cursor = c - w.0.len() as i32;
                if let Some(method) = w.3 {
                    let res = method.call(self, context);
                    self.cursor = c - w.0.len() as i32;
                    if res {
                        return w.2;
                    }
                } else {
                    return w.2;
                }
            }
            i = w.1;
            if i < 0 {
                return 0;
            }
            proof {
                fuel = (fuel - 1) as nat;
                assert(chain_ends(amongs@, i as int, fuel));
            }
        }
    }
}

} // verus!
