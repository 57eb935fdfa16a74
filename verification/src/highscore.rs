//! The highscore store: a ranked record of past game outcomes, ordered by
//! one fixed total order over (game mode, input mode, score descending,
//! duration ascending, timestamp ascending) and capped at twenty entries.
//!
//! The store itself is plain data; reading and writing the durable blob is
//! the caller's business (see `crate::codec` for the byte format).

use vstd::prelude::*;

verus! {

/// Largest number of entries the leaderboard retains.
pub const MAX_ENTRIES: usize = 20;

/// The duration recorded for legacy entries that lack one, in
/// milliseconds.
pub const DEFAULT_DURATION: u32 = 5999000;

/// One leaderboard record. Text fields hold UTF-8 bytes.
#[derive(Clone, Debug, PartialEq, Eq)]
pub struct HighscoreEntry {
    pub name: Vec<u8>,
    pub score: u64,
    pub duration: u32,
    pub mode: Vec<u8>,
    pub game_mode: Vec<u8>,
    pub time: Vec<u8>,
}

/// The mathematical content of one record.
pub struct EntryV {
    pub name: Seq<u8>,
    pub score: u64,
    pub duration: u32,
    pub mode: Seq<u8>,
    pub game_mode: Seq<u8>,
    pub time: Seq<u8>,
}

impl View for HighscoreEntry {
    type V = EntryV;

    open spec fn view(&self) -> EntryV {
        EntryV {
            name: self.name@,
            score: self.score,
            duration: self.duration,
            mode: self.mode@,
            game_mode: self.game_mode@,
            time: self.time@,
        }
    }
}

/// The record views of a list of entries.
pub open spec fn views(s: Seq<HighscoreEntry>) -> Seq<EntryV> {
    s.map_values(|e: HighscoreEntry| e@)
}

/// Lexicographic byte-sequence order, as the standard library orders byte
/// slices: a strict prefix comes first, otherwise the first differing byte
/// decides.
pub open spec fn bytes_lt(a: Seq<u8>, b: Seq<u8>) -> bool
    decreases a.len(),
{
    if b.len() == 0 {
        false
    } else if a.len() == 0 {
        true
    } else if a[0] < b[0] {
        true
    } else if a[0] > b[0] {
        false
    } else {
        bytes_lt(a.drop_first(), b.drop_first())
    }
}

proof fn lemma_bytes_lt_asym(a: Seq<u8>, b: Seq<u8>)
    ensures
        !(bytes_lt(a, b) && bytes_lt(b, a)),
    decreases a.len(),
{
    if a.len() > 0 && b.len() > 0 && a[0] == b[0] {
        lemma_bytes_lt_asym(a.drop_first(), b.drop_first());
    }
}

proof fn lemma_bytes_lt_connex(a: Seq<u8>, b: Seq<u8>)
    ensures
        bytes_lt(a, b) || bytes_lt(b, a) || a == b,
    decreases a.len(),
{
    if a.len() == 0 && b.len() == 0 {
        assert(a =~= b);
    } else if a.len() > 0 && b.len() > 0 && a[0] == b[0] {
        lemma_bytes_lt_connex(a.drop_first(), b.drop_first());
        if a.drop_first() == b.drop_first() {
            assert(a.len() == b.len());
            assert forall|i: int| 0 <= i < a.len() implies a[i] == b[i] by {
                if i > 0 {
                    assert(a[i] == a.drop_first()[i - 1]);
                    assert(b[i] == b.drop_first()[i - 1]);
                }
            }
            assert(a =~= b);
        }
    }
}

proof fn lemma_bytes_lt_trans(a: Seq<u8>, b: Seq<u8>, c: Seq<u8>)
    ensures
        bytes_lt(a, b) && bytes_lt(b, c) ==> bytes_lt(a, c),
    decreases a.len(),
{
    if bytes_lt(a, b) && bytes_lt(b, c) {
        if a.len() > 0 && b.len() > 0 && c.len() > 0 && a[0] == b[0] && b[0] == c[0] {
            lemma_bytes_lt_trans(a.drop_first(), b.drop_first(), c.drop_first());
        }
    }
}

/// The total order over leaderboard records: game mode ascending, then
/// input mode ascending, then score descending, then duration ascending,
/// then timestamp ascending.
pub open spec fn entry_le(a: EntryV, b: EntryV) -> bool {
    if a.game_mode != b.game_mode {
        bytes_lt(a.game_mode, b.game_mode)
    } else if a.mode != b.mode {
        bytes_lt(a.mode, b.mode)
    } else if a.score != b.score {
        b.score < a.score
    } else if a.duration != b.duration {
        a.duration < b.duration
    } else {
        !bytes_lt(b.time, a.time)
    }
}

/// The record order is total: any two records are comparable.
pub proof fn lemma_entry_le_total(a: EntryV, b: EntryV)
    ensures
        entry_le(a, b) || entry_le(b, a),
{
    lemma_bytes_lt_connex(a.game_mode, b.game_mode);
    lemma_bytes_lt_connex(a.mode, b.mode);
    lemma_bytes_lt_asym(a.time, b.time);
}

/// The record order is transitive.
pub proof fn lemma_entry_le_trans(a: EntryV, b: EntryV, c: EntryV)
    requires
        entry_le(a, b),
        entry_le(b, c),
    ensures
        entry_le(a, c),
{
    lemma_bytes_lt_trans(a.game_mode, b.game_mode, c.game_mode);
    lemma_bytes_lt_trans(b.game_mode, c.game_mode, a.game_mode);
    lemma_bytes_lt_trans(c.game_mode, a.game_mode, b.game_mode);
    lemma_bytes_lt_asym(a.game_mode, b.game_mode);
    lemma_bytes_lt_asym(b.game_mode, c.game_mode);
    lemma_bytes_lt_asym(a.game_mode, c.game_mode);
    if a.game_mode == c.game_mode {
        lemma_bytes_lt_trans(a.mode, b.mode, c.mode);
        lemma_bytes_lt_trans(b.mode, c.mode, a.mode);
        lemma_bytes_lt_trans(c.mode, a.mode, b.mode);
        lemma_bytes_lt_asym(a.mode, b.mode);
        lemma_bytes_lt_asym(b.mode, c.mode);
        lemma_bytes_lt_asym(a.mode, c.mode);
        if a.mode == c.mode && a.score == c.score && a.duration == c.duration {
            lemma_bytes_lt_trans(c.time, a.time, b.time);
            lemma_bytes_lt_trans(b.time, c.time, a.time);
            lemma_bytes_lt_asym(a.time, b.time);
            lemma_bytes_lt_asym(b.time, c.time);
            lemma_bytes_lt_connex(a.time, b.time);
            lemma_bytes_lt_connex(b.time, c.time);
        }
    }
}

/// Each record is at or before its neighbour.
pub open spec fn sorted_adj(s: Seq<EntryV>) -> bool {
    forall|i: int| 0 <= i < s.len() - 1 ==> #[trigger] entry_le(s[i], s[i + 1])
}

proof fn lemma_le_refl(a: EntryV)
    ensures
        entry_le(a, a),
{
    lemma_bytes_lt_asym(a.time, a.time);
}

proof fn lemma_le_span(s: Seq<EntryV>, i: int, j: int)
    requires
        sorted_adj(s),
        0 <= i <= j < s.len(),
    ensures
        entry_le(s[i], s[j]),
    decreases j - i,
{
    if i == j {
        lemma_le_refl(s[i]);
    } else {
        lemma_le_span(s, i, j - 1);
        assert(entry_le(s[j - 1], s[(j - 1) + 1]));
        lemma_entry_le_trans(s[i], s[j - 1], s[j]);
    }
}

/// A neighbour-sorted list is sorted pairwise: every record is at or
/// before every later one.
pub proof fn lemma_sorted_pairwise(s: Seq<EntryV>)
    requires
        sorted_adj(s),
    ensures
        forall|i: int, j: int| 0 <= i <= j < s.len() ==> entry_le(s[i], s[j]),
{
    assert forall|i: int, j: int| 0 <= i <= j < s.len() implies entry_le(s[i], s[j]) by {
        lemma_le_span(s, i, j);
    }
}

/// Stable insertion of one record into a list: it goes before the first
/// record it is at or before.
pub open spec fn insert_sorted(x: EntryV, s: Seq<EntryV>) -> Seq<EntryV>
    decreases s.len(),
{
    if s.len() == 0 {
        seq![x]
    } else if entry_le(x, s[0]) {
        seq![x] + s
    } else {
        seq![s[0]] + insert_sorted(x, s.drop_first())
    }
}

/// Stable insertion sort over records.
pub open spec fn sort_seq(s: Seq<EntryV>) -> Seq<EntryV>
    decreases s.len(),
{
    if s.len() == 0 {
        s
    } else {
        insert_sorted(s[0], sort_seq(s.drop_first()))
    }
}

proof fn lemma_insert_sorted_len(x: EntryV, s: Seq<EntryV>)
    ensures
        insert_sorted(x, s).len() == s.len() + 1,
    decreases s.len(),
{
    if s.len() > 0 && !entry_le(x, s[0]) {
        lemma_insert_sorted_len(x, s.drop_first());
    }
}

proof fn lemma_insert_sorted_sorted(x: EntryV, s: Seq<EntryV>)
    requires
        sorted_adj(s),
    ensures
        sorted_adj(insert_sorted(x, s)),
    decreases s.len(),
{
    if s.len() == 0 {
    } else if entry_le(x, s[0]) {
        let r = seq![x] + s;
        assert forall|i: int| 0 <= i < r.len() - 1 implies #[trigger] entry_le(r[i], r[i + 1]) by {
            if i == 0 {
                assert(r[0] == x);
                assert(r[1] == s[0]);
            } else {
                assert(r[i] == s[i - 1]);
                assert(r[i + 1] == s[i]);
                assert(entry_le(s[i - 1], s[(i - 1) + 1]));
            }
        }
    } else {
        let tail = s.drop_first();
        assert(sorted_adj(tail)) by {
            assert forall|i: int| 0 <= i < tail.len() - 1 implies #[trigger] entry_le(
                tail[i],
                tail[i + 1],
            ) by {
                assert(tail[i] == s[i + 1]);
                assert(tail[i + 1] == s[i + 2]);
            }
        }
        lemma_insert_sorted_sorted(x, tail);
        lemma_insert_sorted_len(x, tail);
        let ins = insert_sorted(x, tail);
        let r = seq![s[0]] + ins;
        assert forall|i: int| 0 <= i < r.len() - 1 implies #[trigger] entry_le(r[i], r[i + 1]) by {
            assert(r[0] == s[0]);
            if i == 0 {
                lemma_entry_le_total(x, s[0]);
                if tail.len() == 0 {
                    assert(ins[0] == x);
                } else if entry_le(x, tail[0]) {
                    assert(ins[0] == x);
                } else {
                    assert(ins[0] == seq![tail[0]].add(insert_sorted(x, tail.drop_first()))[0]);
                    assert(ins[0] == tail[0]);
                    assert(tail[0] == s[1]);
                    assert(entry_le(s[0int], s[0int + 1]));
                }
                assert(r[1] == ins[0]);
            } else {
                assert(r[i] == ins[i - 1]);
                assert(r[i + 1] == ins[i]);
                assert(entry_le(ins[i - 1], ins[(i - 1) + 1]));
            }
        }
    }
}

/// The result of the stable insertion sort is sorted.
pub proof fn lemma_sort_sorted(s: Seq<EntryV>)
    ensures
        sorted_adj(sort_seq(s)),
    decreases s.len(),
{
    if s.len() > 0 {
        lemma_sort_sorted(s.drop_first());
        lemma_insert_sorted_sorted(s[0], sort_seq(s.drop_first()));
    }
}

/// Sorting keeps the length.
pub proof fn lemma_sort_len(s: Seq<EntryV>)
    ensures
        sort_seq(s).len() == s.len(),
    decreases s.len(),
{
    if s.len() > 0 {
        lemma_sort_len(s.drop_first());
        lemma_insert_sorted_len(s[0], sort_seq(s.drop_first()));
    }
}

/// The list a capped insert leaves behind: the input records plus the new
/// one, sorted, truncated to the cap.
pub open spec fn capped_insert(s: Seq<EntryV>, e: EntryV) -> Seq<EntryV> {
    let full = sort_seq(s.push(e));
    if full.len() <= MAX_ENTRIES {
        full
    } else {
        full.take(MAX_ENTRIES as int)
    }
}

fn bytes_eq(a: &Vec<u8>, b: &Vec<u8>) -> (r: bool)
    ensures
        r == (a@ == b@),
{
    if a.len() != b.len() {
        return false;
    }
    let mut i: usize = 0;
    while i < a.len()
        invariant
            0 <= i <= a@.len(),
            a@.len() == b@.len(),
            forall|j: int| 0 <= j < i ==> a@[j] == b@[j],
        decreases a@.len() - i,
    {
        if a[i] != b[i] {
            return false;
        }
        i += 1;
    }
    proof {
        assert(a@ =~= b@);
    }
    true
}

fn bytes_lt_at(a: &Vec<u8>, b: &Vec<u8>, i: usize) -> (r: bool)
    requires
        i <= a@.len(),
        i <= b@.len(),
    ensures
        r == bytes_lt(a@.skip(i as int), b@.skip(i as int)),
    decreases a@.len() - i,
{
    if i == b.len() {
        false
    } else if i == a.len() {
        true
    } else if a[i] < b[i] {
        true
    } else if a[i] > b[i] {
        false
    } else {
        proof {
            assert(a@.skip(i as int).drop_first() =~= a@.skip(i + 1));
            assert(b@.skip(i as int).drop_first() =~= b@.skip(i + 1));
        }
        bytes_lt_at(a, b, i + 1)
    }
}

fn bytes_lt_exec(a: &Vec<u8>, b: &Vec<u8>) -> (r: bool)
    ensures
        r == bytes_lt(a@, b@),
{
    proof {
        assert(a@.skip(0) =~= a@);
        assert(b@.skip(0) =~= b@);
    }
    bytes_lt_at(a, b, 0)
}

/// Decides the total order over records.
pub fn entry_le_exec(a: &HighscoreEntry, b: &HighscoreEntry) -> (r: bool)
    ensures
        r == entry_le(a@, b@),
{
    if !bytes_eq(&a.game_mode, &b.game_mode) {
        return bytes_lt_exec(&a.game_mode, &b.game_mode);
    }
    if !bytes_eq(&a.mode, &b.mode) {
        return bytes_lt_exec(&a.mode, &b.mode);
    }
    if a.score != b.score {
        return b.score < a.score;
    }
    if a.duration != b.duration {
        return a.duration < b.duration;
    }
    !bytes_lt_exec(&b.time, &a.time)
}

fn insert_into_sorted(v: Vec<HighscoreEntry>, x: HighscoreEntry) -> (r: Vec<HighscoreEntry>)
    ensures
        views(r@) == insert_sorted(x@, views(v@)),
    decreases v@.len(),
{
    let mut v = v;
    let ghost vin = v@;
    if v.len() == 0 {
        v.push(x);
        proof {
            assert(views(v@) =~= insert_sorted(x@, views(vin)));
        }
        return v;
    }
    if entry_le_exec(&x, &v[0]) {
        proof {
            assert(views(v@)[0] == v@[0]@);
        }
        v.insert(0, x);
        proof {
            assert(views(v@) =~= seq![x@] + views(vin));
        }
        return v;
    }
    let ghost v0 = v@;
    let head = v.remove(0);
    proof {
        assert(views(v@) =~= views(v0).drop_first());
    }
    let rest = insert_into_sorted(v, x);
    let mut r = rest;
    r.insert(0, head);
    proof {
        assert(views(r@) =~= seq![head@] + insert_sorted(x@, views(v0).drop_first()));
        assert(views(v0)[0] == head@);
    }
    r
}

fn sort_entries(l: Vec<HighscoreEntry>) -> (r: Vec<HighscoreEntry>)
    ensures
        views(r@) == sort_seq(views(l@)),
    decreases l@.len(),
{
    let mut l = l;
    if l.len() == 0 {
        return l;
    }
    let ghost l0 = l@;
    let x = l.remove(0);
    proof {
        assert(views(l@) =~= views(l0).drop_first());
        assert(views(l0)[0] == x@);
    }
    let rest = sort_entries(l);
    insert_into_sorted(rest, x)
}

/// Inserts one record: the result is the input records plus the new one,
/// sorted by the total order and truncated to the first twenty.
pub fn add_entry(entries: Vec<HighscoreEntry>, e: HighscoreEntry) -> (r: Vec<HighscoreEntry>)
    ensures
        views(r@) == capped_insert(views(entries@), e@),
        sorted_adj(views(r@)),
        r@.len() <= MAX_ENTRIES,
{
    let mut entries = entries;
    let ghost pre = views(entries@);
    entries.push(e);
    proof {
        assert(views(entries@) =~= pre.push(e@));
    }
    let mut sorted = sort_entries(entries);
    proof {
        lemma_sort_sorted(pre.push(e@));
        lemma_sort_len(pre.push(e@));
    }
    let ghost full = views(sorted@);
    sorted.truncate(MAX_ENTRIES);
    proof {
        if full.len() > MAX_ENTRIES {
            assert(views(sorted@) =~= full.take(MAX_ENTRIES as int));
            assert forall|i: int|
                0 <= i < views(sorted@).len() - 1 implies #[trigger] entry_le(
                views(sorted@)[i],
                views(sorted@)[i + 1],
            ) by {
                assert(views(sorted@)[i] == full[i]);
                assert(views(sorted@)[i + 1] == full[i + 1]);
            }
        } else {
            assert(views(sorted@) =~= full);
        }
    }
    sorted
}

/// Relies on chrono's `Local::now` and its `format`: the current local
/// time rendered as `YYYY-MM-DD HH:MM:SS`, which is at least 19 bytes
/// (the year is zero-padded to four digits, every other field to two).
#[verifier::external_body]
fn now_time_bytes() -> (r: Vec<u8>)
    ensures
        r@.len() >= 19,
{
    chrono::Local::now().format("%Y-%m-%d %H:%M:%S").to_string().into_bytes()
}

fn copy_bytes(a: &Vec<u8>) -> (r: Vec<u8>)
    ensures
        r@ == a@,
{
    let mut r: Vec<u8> = Vec::new();
    let mut i: usize = 0;
    while i < a.len()
        invariant
            0 <= i <= a@.len(),
            r@ == a@.take(i as int),
        decreases a@.len() - i,
    {
        r.push(a[i]);
        proof {
            assert(a@.take(i as int).push(a@[i as int]) =~= a@.take(i + 1));
        }
        i += 1;
    }
    proof {
        assert(a@.take(a@.len() as int) =~= a@);
    }
    r
}

/// Builds the record for a finished game, stamps it with the current local
/// time, and inserts it into the given leaderboard. Returns the new
/// leaderboard and the timestamp of the inserted record, by which the
/// caller can highlight it.
pub fn add_score(
    entries: Vec<HighscoreEntry>,
    name: Vec<u8>,
    score: u64,
    input_mode: Vec<u8>,
    game_mode: Vec<u8>,
    duration: u32,
) -> (r: (Vec<HighscoreEntry>, Vec<u8>))
    ensures
        views(r.0@) == capped_insert(
            views(entries@),
            EntryV {
                name: name@,
                score,
                duration,
                mode: input_mode@,
                game_mode: game_mode@,
                time: r.1@,
            },
        ),
        sorted_adj(views(r.0@)),
        r.0@.len() <= MAX_ENTRIES,
        r.1@.len() >= 19,
{
    let time = now_time_bytes();
    let time_out = copy_bytes(&time);
    let e = HighscoreEntry { name, score, duration, mode: input_mode, game_mode, time };
    let list = add_entry(entries, e);
    (list, time_out)
}

} // verus!
