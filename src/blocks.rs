use vstd::prelude::*;
use vstd::slice::slice_subrange;
use crate::entry::{parse_item, spec_head, spec_parse_item, spec_title_start};
use crate::text::{find_delim, has_delim, is_ws, lemma_find_delim, lemma_skip_ws_bounds, skip_ws, skip_ws_from};
use crate::types::{EntryModel, Item};

verus! {

/// How many `--` pairs follow one another from position `i`.
pub open spec fn dash_run(s: Seq<u8>, i: int) -> nat
    decreases s.len() - i,
{
    if 0 <= i && i + 1 < s.len() && s[i] == 45 && s[i + 1] == 45 {
        1 + dash_run(s, i + 2)
    } else {
        0
    }
}

/// The first position at or after `i` where a newline is followed by `--`.
pub open spec fn find_break(s: Seq<u8>, i: int) -> Option<int>
    decreases s.len() - i,
{
    if i < 0 || i + 2 >= s.len() {
        None
    } else if s[i] == 10 && s[i + 1] == 45 && s[i + 2] == 45 {
        Some(i)
    } else {
        find_break(s, i + 1)
    }
}

/// The block that starts at `i`: where the next one starts, its depth, and
/// the start and end of its text.
pub open spec fn spec_line(s: Seq<u8>, i: int) -> Option<(int, nat, int, int)> {
    let d = dash_run(s, i);
    if d == 0 {
        None
    } else {
        let st = i + 2 * d;
        match find_break(s, st) {
            Some(j) => Some((j + 1, d, st, j)),
            None => Some((s.len() as int, d, st, s.len() as int)),
        }
    }
}

/// The blocks from position `i` on, as depth and text.
pub open spec fn spec_blocks_from(s: Seq<u8>, i: int) -> Seq<(usize, Seq<u8>)>
    decreases s.len() - i,
{
    if 0 <= i <= s.len() {
        match spec_line(s, i) {
            Some((n, d, a, b)) => if i < n <= s.len() {
                seq![(d as usize, s.subrange(a, b))] + spec_blocks_from(s, n)
            } else {
                seq![]
            },
            None => seq![],
        }
    } else {
        seq![]
    }
}

/// The blocks of a whole input: none for an input of whitespace alone, and no
/// answer for one that starts with neither a depth marker nor whitespace only.
pub open spec fn spec_match_lines(s: Seq<u8>) -> Option<Seq<(usize, Seq<u8>)>> {
    if dash_run(s, 0) > 0 {
        Some(spec_blocks_from(s, 0))
    } else if skip_ws(s, 0) == s.len() {
        Some(seq![])
    } else {
        None
    }
}

/// The entries of the blocks that parse, with their depths, in order.
pub open spec fn parsed_entries(blocks: Seq<(usize, Seq<u8>)>) -> Seq<(usize, EntryModel)>
    decreases blocks.len(),
{
    if blocks.len() == 0 {
        seq![]
    } else {
        let rest = parsed_entries(blocks.drop_last());
        match spec_parse_item(blocks.last().1) {
            Ok(m) => rest.push((blocks.last().0, m)),
            Err(_) => rest,
        }
    }
}

/// What the whole pipeline yields for an input.
pub open spec fn spec_read(s: Seq<u8>) -> Option<Seq<(usize, EntryModel)>> {
    match spec_match_lines(s) {
        Some(b) => Some(parsed_entries(b)),
        None => None,
    }
}

/// Blocks as depth and the bytes of their text.
pub open spec fn blocks_view<'a>(v: Seq<(usize, &'a [u8])>) -> Seq<(usize, Seq<u8>)> {
    v.map_values(|p: (usize, &'a [u8])| (p.0, p.1@))
}

/// Entries as depth and their mathematical value.
pub open spec fn entries_view(v: Seq<(usize, Item)>) -> Seq<(usize, EntryModel)> {
    v.map_values(|p: (usize, Item)| (p.0, p.1.model()))
}

/// Whether no entry has children.
pub open spec fn no_children(v: Seq<(usize, Item)>) -> bool {
    forall|i: int| 0 <= i < v.len() ==> (#[trigger] v[i]).1.children@.len() == 0
}

/// The depth markers counted from `i` lie within the input.
pub proof fn lemma_dash_run_bound(s: Seq<u8>, i: int)
    requires
        0 <= i <= s.len(),
    ensures
        i + 2 * dash_run(s, i) <= s.len(),
    decreases s.len() - i,
{
    if i + 1 < s.len() && s[i] == 45 && s[i + 1] == 45 {
        lemma_dash_run_bound(s, i + 2);
    }
}

proof fn lemma_skip_all_ws(s: Seq<u8>, i: int)
    requires
        0 <= i <= s.len(),
        forall|k: int| 0 <= k < s.len() ==> is_ws(#[trigger] s[k]),
    ensures
        skip_ws(s, i) == s.len(),
    decreases s.len() - i,
{
    if i < s.len() {
        lemma_skip_all_ws(s, i + 1);
    }
}

/// An input of whitespace alone, or an empty one, yields no entries.
pub proof fn lemma_blank_input_reads_empty(s: Seq<u8>)
    requires
        forall|k: int| 0 <= k < s.len() ==> is_ws(#[trigger] s[k]),
    ensures
        spec_read(s) == Some(Seq::<(usize, EntryModel)>::empty()),
{
    lemma_skip_all_ws(s, 0);
    assert(dash_run(s, 0) == 0) by {
        if s.len() > 1 {
            assert(is_ws(s[0]));
        }
    }
    assert(parsed_entries(seq![]) =~= Seq::<(usize, EntryModel)>::empty());
}

/// Text without `;;` never parses as an entry.
pub proof fn lemma_undelimited_text_fails(s: Seq<u8>)
    requires
        !has_delim(s),
    ensures
        spec_parse_item(s) is Err,
{
    let p = spec_title_start(s).1;
    lemma_skip_ws_bounds(s, 0);
    assert(0 <= p <= s.len());
    let t = s.subrange(p, s.len() as int);
    lemma_find_delim(t, 0);
    if find_delim(t, 0) is Some {
        let j = find_delim(t, 0)->Some_0;
        assert(s[p + j] == 59 && s[p + j + 1] == 59);
    }
    assert(spec_head(t) is Err);
}

/// Parsing the blocks of two runs one after the other gives the entries of
/// each, one after the other.
pub proof fn lemma_parsed_entries_append(x: Seq<(usize, Seq<u8>)>, y: Seq<(usize, Seq<u8>)>)
    ensures
        parsed_entries(x + y) == parsed_entries(x) + parsed_entries(y),
    decreases y.len(),
{
    if y.len() == 0 {
        assert(x + y =~= x);
        assert(parsed_entries(x) + parsed_entries(y) =~= parsed_entries(x));
    } else {
        assert((x + y).drop_last() =~= x + y.drop_last());
        lemma_parsed_entries_append(x, y.drop_last());
        assert((x + y).last() == y.last());
        match spec_parse_item(y.last().1) {
            Ok(m) => {
                assert(parsed_entries(x + y) =~= parsed_entries(x) + parsed_entries(y));
            },
            Err(_) => {},
        }
    }
}

/// A block whose text holds no `;;` is dropped: the entries are those of the
/// other blocks, in their order.
pub proof fn lemma_undelimited_block_dropped(
    before: Seq<(usize, Seq<u8>)>,
    block: (usize, Seq<u8>),
    after: Seq<(usize, Seq<u8>)>,
)
    requires
        !has_delim(block.1),
    ensures
        parsed_entries(before + seq![block] + after) == parsed_entries(before + after),
{
    lemma_undelimited_text_fails(block.1);
    lemma_parsed_entries_append(before + seq![block], after);
    lemma_parsed_entries_append(before, seq![block]);
    lemma_parsed_entries_append(before, after);
    assert(seq![block].drop_last() =~= Seq::<(usize, Seq<u8>)>::empty());
    assert(parsed_entries(seq![block]) =~= parsed_entries(Seq::<(usize, Seq<u8>)>::empty()));
    assert(parsed_entries(before) + parsed_entries(seq![block]) =~= parsed_entries(before));
}

/// `d` depth markers in a row.
pub open spec fn dashes(d: nat) -> Seq<u8> {
    Seq::new(2 * d, |_i: int| 45u8)
}

/// Whether a newline followed by `--` starts at `k`.
pub open spec fn break_at(s: Seq<u8>, k: int) -> bool {
    0 <= k && k + 2 < s.len() && s[k] == 10 && s[k + 1] == 45 && s[k + 2] == 45
}

/// Text that a block can hold: it does not start with a depth marker and holds
/// no newline followed by one.
pub open spec fn plain_block_text(b: Seq<u8>) -> bool {
    !(b.len() >= 2 && b[0] == 45 && b[1] == 45) && forall|k: int| !#[trigger] break_at(b, k)
}

/// `find_break` gives the first newline followed by `--`, or there is none.
pub proof fn lemma_find_break(s: Seq<u8>, i: int)
    requires
        0 <= i,
    ensures
        match find_break(s, i) {
            Some(j) => i <= j && break_at(s, j) && forall|k: int|
                i <= k < j ==> !#[trigger] break_at(s, k),
            None => forall|k: int| i <= k ==> !#[trigger] break_at(s, k),
        },
    decreases s.len() - i,
{
    if i + 2 < s.len() && !(s[i] == 10 && s[i + 1] == 45 && s[i + 2] == 45) {
        lemma_find_break(s, i + 1);
    }
}

proof fn lemma_dash_run_end(s: Seq<u8>, i: int)
    requires
        0 <= i,
    ensures
        dash_run(s, i + 2 * dash_run(s, i)) == 0,
    decreases s.len() - i,
{
    if i + 1 < s.len() && s[i] == 45 && s[i + 1] == 45 {
        lemma_dash_run_end(s, i + 2);
    }
}

/// Every block has a depth of one or more and text that a block can hold.
proof fn lemma_blocks_plain(s: Seq<u8>, i: int)
    requires
        0 <= i <= s.len(),
        s.len() <= usize::MAX,
    ensures
        forall|k: int|
            0 <= k < spec_blocks_from(s, i).len() ==> (#[trigger] spec_blocks_from(s, i)[k]).0 >= 1
                && plain_block_text(spec_blocks_from(s, i)[k].1),
    decreases s.len() - i,
{
    match spec_line(s, i) {
        Some((n, d, a, b)) => {
            if i < n <= s.len() {
                lemma_blocks_plain(s, n);
                lemma_dash_run_bound(s, i);
                lemma_dash_run_end(s, i);
                lemma_find_break(s, a);
                let t = s.subrange(a, b);
                assert(a <= b);
                assert forall|k: int| !#[trigger] break_at(t, k) by {
                    if break_at(t, k) {
                        assert(break_at(s, a + k));
                    }
                }
                if t.len() >= 2 {
                    assert(t[0] == s[a] && t[1] == s[a + 1]);
                }
                let head = seq![(d as usize, t)];
                assert(spec_blocks_from(s, i) == head + spec_blocks_from(s, n));
                assert forall|k: int| 0 <= k < spec_blocks_from(s, i).len() implies (
                #[trigger] spec_blocks_from(s, i)[k]).0 >= 1 && plain_block_text(
                    spec_blocks_from(s, i)[k].1,
                ) by {
                    if k > 0 {
                        assert(spec_blocks_from(s, i)[k] == spec_blocks_from(s, n)[k - 1]);
                    }
                }
            }
        },
        None => {},
    }
}

proof fn lemma_dashes_counted(d: nat, b: Seq<u8>, j: nat)
    requires
        j <= d,
        !(b.len() >= 2 && b[0] == 45 && b[1] == 45),
    ensures
        dash_run(dashes(d) + b, 2 * j as int) == d - j,
    decreases d - j,
{
    let t = dashes(d) + b;
    if j < d {
        lemma_dashes_counted(d, b, j + 1);
        let i: int = 2 * j as int;
        assert(t[i] == 45 && t[i + 1] == 45);
    } else {
        if b.len() >= 2 {
            let i: int = 2 * j as int;
            assert(t[i] == b[0] && t[i + 1] == b[1]);
        }
    }
}

/// Writing a block back as its depth markers and its text, and splitting
/// that, gives that block alone.
pub proof fn lemma_block_resplit(s: Seq<u8>, k: int)
    requires
        s.len() <= usize::MAX,
        spec_match_lines(s) is Some,
        0 <= k < spec_match_lines(s)->Some_0.len(),
    ensures
        ({
            let blk = spec_match_lines(s)->Some_0[k];
            spec_match_lines(dashes(blk.0 as nat) + blk.1) == Some(seq![blk])
        }),
{
    lemma_blocks_plain(s, 0);
    let blk = spec_match_lines(s)->Some_0[k];
    let d = blk.0 as nat;
    let b = blk.1;
    let t = dashes(d) + b;
    lemma_dashes_counted(d, b, 0);
    lemma_dashes_counted(d, b, d);
    let st: int = 2 * d as int;
    lemma_find_break(t, st);
    if find_break(t, st) is Some {
        let j = find_break(t, st)->Some_0;
        assert(break_at(b, j - st));
    }
    assert(t.subrange(st, t.len() as int) =~= b);
    assert(dash_run(t, t.len() as int) == 0);
    assert(spec_blocks_from(t, t.len() as int) == Seq::<(usize, Seq<u8>)>::empty());
    assert(spec_blocks_from(t, 0) =~= seq![(d as usize, b)]);
}

/// Counts the `--` pairs at the start of `input`.
pub fn count_dash(input: &[u8]) -> (r: usize)
    ensures
        r == dash_run(input@, 0),
        2 * r <= input@.len(),
{
    dash_run_at(input, 0)
}

fn dash_run_at(s: &[u8], i: usize) -> (r: usize)
    requires
        i <= s@.len(),
    ensures
        r == dash_run(s@, i as int),
        i + 2 * r <= s@.len(),
{
    let mut k = i;
    let mut c: usize = 0;
    while k < s.len() && s.len() - k > 1 && s[k] == 45 && s[k + 1] == 45
        invariant
            i <= k <= s@.len(),
            k == i + 2 * c,
            dash_run(s@, i as int) == c + dash_run(s@, k as int),
        decreases s@.len() - k,
    {
        k = k + 2;
        c = c + 1;
    }
    proof {
        lemma_dash_run_bound(s@, k as int);
    }
    c
}

fn find_break_from(s: &[u8], i: usize) -> (r: Option<usize>)
    ensures
        match r {
            Some(j) => find_break(s@, i as int) == Some(j as int),
            None => find_break(s@, i as int) is None,
        },
{
    let mut k = i;
    while k < s.len() && s.len() - k > 2
        invariant
            i <= k,
            find_break(s@, k as int) == find_break(s@, i as int),
        decreases s@.len() - k,
    {
        if s[k] == 10 && s[k + 1] == 45 && s[k + 2] == 45 {
            return Some(k);
        }
        k = k + 1;
    }
    None
}

fn line_at(s: &[u8], i: usize) -> (r: Option<(usize, usize, usize, usize)>)
    requires
        i <= s@.len(),
    ensures
        match r {
            Some((n, d, a, b)) => spec_line(s@, i as int) == Some(
                (n as int, d as nat, a as int, b as int),
            ) && i < n <= s@.len() && a <= b <= s@.len(),
            None => spec_line(s@, i as int) is None,
        },
{
    let d = dash_run_at(s, i);
    if d == 0 {
        return None;
    }
    let len = s.len();
    assert(i + 2 * d <= len);
    let st = i + 2 * d;
    proof {
        lemma_find_break(s@, st as int);
    }
    match find_break_from(s, st) {
        Some(j) => Some((j + 1, d, st, j)),
        None => Some((s.len(), d, st, s.len())),
    }
}

/// Reads one block at the start of `input`: the bytes taken, the depth, and the
/// text up to the next newline that is followed by `--`.
pub fn match_line(input: &[u8]) -> (r: Option<(usize, usize, &[u8])>)
    ensures
        match r {
            Some((n, d, t)) => exists|a: int, b: int|
                spec_line(input@, 0) == Some((n as int, d as nat, a, b)) && t@ == input@.subrange(
                    a,
                    b,
                ),
            None => spec_line(input@, 0) is None,
        },
{
    match line_at(input, 0) {
        Some((n, d, a, b)) => Some((n, d, slice_subrange(input, a, b))),
        None => None,
    }
}

/// Splits `input` into blocks of depth and text; `None` when the input starts
/// with neither a depth marker nor whitespace alone.
pub fn match_lines(input: &[u8]) -> (r: Option<Vec<(usize, &[u8])>>)
    ensures
        match r {
            Some(v) => spec_match_lines(input@) == Some(blocks_view(v@)),
            None => spec_match_lines(input@) is None,
        },
{
    if count_dash(input) == 0 {
        if skip_ws_from(input, 0) == input.len() {
            let v: Vec<(usize, &[u8])> = Vec::new();
            assert(blocks_view(v@) =~= seq![]);
            return Some(v);
        }
        return None;
    }
    let mut v: Vec<(usize, &[u8])> = Vec::new();
    let mut i: usize = 0;
    loop
        invariant
            i <= input@.len(),
            dash_run(input@, 0) > 0,
            blocks_view(v@) + spec_blocks_from(input@, i as int) == spec_blocks_from(input@, 0),
        decreases input@.len() - i,
    {
        match line_at(input, i) {
            Some((n, d, a, b)) => {
                let ghost old_v = v@;
                v.push((d, slice_subrange(input, a, b)));
                assert(blocks_view(v@) =~= blocks_view(old_v).push((d, input@.subrange(a as int, b as int))));
                assert(blocks_view(v@) + spec_blocks_from(input@, n as int) =~= blocks_view(old_v)
                    + spec_blocks_from(input@, i as int));
                i = n;
            },
            None => {
                assert(blocks_view(v@) =~= blocks_view(v@) + spec_blocks_from(input@, i as int));
                return Some(v);
            },
        }
    }
}

/// Parses one block's text, keeping its depth; `None` when the text does not
/// parse.
pub fn convert_item_tup(ini_tup: (usize, &[u8])) -> (r: Option<(usize, Item)>)
    ensures
        match r {
            Some((d, item)) => d == ini_tup.0 && spec_parse_item(ini_tup.1@) == Ok::<
                EntryModel,
                crate::types::ParseError,
            >(item.model()) && item.children@.len() == 0,
            None => spec_parse_item(ini_tup.1@) is Err,
        },
{
    match parse_item(ini_tup.1) {
        Ok(item) => Some((ini_tup.0, item)),
        Err(_) => None,
    }
}

/// Parses every block, keeping in order those that parse and dropping the
/// others.
pub fn convert_vec_items(v: Vec<(usize, &[u8])>) -> (r: Vec<(usize, Item)>)
    ensures
        entries_view(r@) == parsed_entries(blocks_view(v@)),
        no_children(r@),
{
    let mut parsed_v: Vec<(usize, Item)> = Vec::new();
    let mut i: usize = 0;
    while i < v.len()
        invariant
            i <= v@.len(),
            entries_view(parsed_v@) == parsed_entries(blocks_view(v@.subrange(0, i as int))),
            no_children(parsed_v@),
        decreases v@.len() - i,
    {
        let ghost old_p = parsed_v@;
        assert(blocks_view(v@.subrange(0, i + 1)).drop_last() =~= blocks_view(
            v@.subrange(0, i as int),
        ));
        match convert_item_tup(v[i]) {
            Some(x) => {
                parsed_v.push(x);
                assert(entries_view(parsed_v@) =~= entries_view(old_p).push(
                    (x.0, x.1.model()),
                ));
            },
            None => {},
        }
        i = i + 1;
    }
    assert(v@.subrange(0, i as int) =~= v@);
    parsed_v
}

/// Splits the input into blocks and parses each, keeping in order the entries
/// that parse with their depths; `None` when the input starts with neither a
/// depth marker nor whitespace alone.
pub fn read_lines_and_parse(input: &[u8]) -> (r: Option<Vec<(usize, Item)>>)
    ensures
        match r {
            Some(v) => spec_read(input@) == Some(entries_view(v@)) && no_children(v@),
            None => spec_read(input@) is None,
        },
{
    match match_lines(input) {
        Some(blocks) => Some(convert_vec_items(blocks)),
        None => None,
    }
}

} // verus!
