//! Lane index tracker: owns the mapping from lane index to the entries
//! currently occupying that lane, folds each row of movement symbols into a
//! fresh mapping, and finally joins lane positions to output labels.

use vstd::prelude::*;
use vstd::multiset::Multiset;

verus! {

broadcast use vstd::multiset::group_multiset_axioms, vstd::seq_lib::group_to_multiset_ensures;

/// A movement symbol: one per lane per row. `Down` keeps the lane index,
/// `Left` moves to lane index minus one, `Right` to lane index plus one.
#[derive(Clone, Copy, Debug, PartialEq, Eq, Structural)]
pub enum Path {
    Down,
    Left,
    Right,
}

/// Failure while reading one row of rung notation.
#[derive(Clone, Copy, Debug, PartialEq, Eq, Structural)]
pub enum ParserError {
    /// A token is not one of the three movement symbols `|`, `<`, `>`.
    IncorrectChar,
    /// The row produced no tokens at all.
    Empty,
    /// The row's token count differs from the current lane count.
    IncorrectRowLength,
    /// A `<` at the first lane or a `>` at the last lane would leave the
    /// valid lane index range.
    IndexOutOfRange,
}

/// Failure while registering bulk input.
#[derive(Clone, Copy, Debug, PartialEq, Eq, Structural)]
pub enum InputError {
    /// The number of outputs differs from the current lane count.
    IncorrectInputSize,
}

impl ParserError {
    /// A short description of the error, suitable for display.
    pub fn message(&self) -> (r: String)
        ensures
            self is IncorrectChar ==> r@ == "incorrect character found"@,
            self is Empty ==> r@ == "line was empty"@,
            self is IncorrectRowLength ==> r@ == "row length does not match the lane count"@,
            self is IndexOutOfRange ==> r@ == "movement leaves the lane index range"@,
    {
        match self {
            ParserError::IncorrectChar => String::from_str("incorrect character found"),
            ParserError::Empty => String::from_str("line was empty"),
            ParserError::IncorrectRowLength => String::from_str(
                "row length does not match the lane count",
            ),
            ParserError::IndexOutOfRange => String::from_str("movement leaves the lane index range"),
        }
    }
}

impl InputError {
    /// A short description of the error, suitable for display.
    pub fn message(&self) -> (r: String)
        ensures
            r@ == "incorrect input size"@,
    {
        match self {
            InputError::IncorrectInputSize => String::from_str("incorrect input size"),
        }
    }
}

/// The movement symbol a token denotes, if any: exactly the one-character
/// tokens `|`, `<` and `>` denote a symbol.
pub open spec fn parse_token(t: Seq<char>) -> Option<Path> {
    if t.len() == 1 && t[0] == '|' {
        Some(Path::Down)
    } else if t.len() == 1 && t[0] == '<' {
        Some(Path::Left)
    } else if t.len() == 1 && t[0] == '>' {
        Some(Path::Right)
    } else {
        None
    }
}

impl Path {
    /// Parses a single movement token: `|` is `Down`, `<` is `Left`, `>` is
    /// `Right`; any other content, including empty or multi-character tokens,
    /// is rejected with `IncorrectChar`.
    pub fn from_token(s: &str) -> (r: Result<Path, ParserError>)
        ensures
            match parse_token(s@) {
                Some(p) => r == Ok::<Path, ParserError>(p),
                None => r == Err::<Path, ParserError>(ParserError::IncorrectChar),
            },
    {
        let n = s.unicode_len();
        if n != 1 {
            return Err(ParserError::IncorrectChar);
        }
        let c = s.get_char(0);
        match c {
            '|' => Ok(Path::Down),
            '<' => Ok(Path::Left),
            '>' => Ok(Path::Right),
            _ => Err(ParserError::IncorrectChar),
        }
    }
}

/// The lane a symbol read at lane `i` routes the lane's entries to.
pub open spec fn target_lane(i: int, m: Path) -> int {
    match m {
        Path::Down => i,
        Path::Left => i - 1,
        Path::Right => i + 1,
    }
}

/// Every symbol of the row routes its lane to a lane inside `0 .. n`.
pub open spec fn moves_in_range(moves: Seq<Path>, n: int) -> bool {
    forall|i: int| 0 <= i < moves.len() ==> 0 <= #[trigger] target_lane(i, moves[i]) < n
}

/// The entries that land at lane `j` from the first `k` source lanes, in
/// source-lane order, each source lane's entries kept in order.
pub open spec fn routed_prefix<I>(lanes: Seq<Seq<I>>, moves: Seq<Path>, j: int, k: int) -> Seq<I>
    decreases k,
{
    if k <= 0 {
        Seq::empty()
    } else if target_lane(k - 1, moves[k - 1]) == j {
        routed_prefix(lanes, moves, j, k - 1) + lanes[k - 1]
    } else {
        routed_prefix(lanes, moves, j, k - 1)
    }
}

/// The mapping after one row: lane `j` holds every entry routed to `j`.
pub open spec fn apply_row<I>(lanes: Seq<Seq<I>>, moves: Seq<Path>) -> Seq<Seq<I>> {
    Seq::new(lanes.len(), |j: int| routed_prefix(lanes, moves, j, lanes.len() as int))
}

/// The multiset of all entries held anywhere in the mapping.
pub open spec fn entries_multiset<I>(lanes: Seq<Seq<I>>) -> Multiset<I>
    decreases lanes.len(),
{
    if lanes.len() == 0 {
        Multiset::empty()
    } else {
        entries_multiset(lanes.drop_last()).add(lanes.last().to_multiset())
    }
}

/// The mapping seeded from an entry list: one singleton lane per entry, in
/// input order.
pub open spec fn seeded_lanes<I>(es: Seq<I>) -> Seq<Seq<I>> {
    Seq::new(es.len(), |i: int| seq![es[i]])
}

/// What one row of text asks of a tracker with `n_lanes` lanes: the parsed
/// movement symbols, or the error the row is rejected with. A row is rejected
/// with `Empty` when it has no tokens, with `IncorrectChar` when some token is
/// not a movement symbol, with `IncorrectRowLength` when the token count
/// differs from the lane count, and with `IndexOutOfRange` when a symbol
/// routes an edge lane outside the valid index range.
pub open spec fn row_moves(s: Seq<char>, n_lanes: int) -> Result<Seq<Path>, ParserError> {
    let toks = crate::notation::split_ws(crate::notation::normalize_spec(s));
    if toks.len() == 0 {
        Err(ParserError::Empty)
    } else if !(forall|k: int| 0 <= k < toks.len() ==> #[trigger] parse_token(toks[k]) is Some) {
        Err(ParserError::IncorrectChar)
    } else if toks.len() != n_lanes {
        Err(ParserError::IncorrectRowLength)
    } else if !moves_in_range(Seq::new(toks.len(), |k: int| parse_token(toks[k]).unwrap()), n_lanes) {
        Err(ParserError::IndexOutOfRange)
    } else {
        Ok(Seq::new(toks.len(), |k: int| parse_token(toks[k]).unwrap()))
    }
}

proof fn lemma_entries_multiset_empty_lanes<I>(s: Seq<Seq<I>>)
    requires
        forall|j: int| 0 <= j < s.len() ==> #[trigger] s[j].len() == 0,
    ensures
        entries_multiset(s) == Multiset::<I>::empty(),
    decreases s.len(),
{
    if s.len() == 0 {
    } else {
        lemma_entries_multiset_empty_lanes(s.drop_last());
        assert(s.last().to_multiset() =~= Multiset::<I>::empty()) by {
            assert forall|x: I| s.last().to_multiset().count(x) == 0 by {
                assert(!s.last().contains(x));
            }
        }
        assert(entries_multiset(s) =~= Multiset::<I>::empty());
    }
}

proof fn lemma_entries_multiset_update<I>(s: Seq<Seq<I>>, j: int, extra: Seq<I>)
    requires
        0 <= j < s.len(),
    ensures
        entries_multiset(s.update(j, s[j] + extra)) == entries_multiset(s).add(
            extra.to_multiset(),
        ),
    decreases s.len(),
{
    let s2 = s.update(j, s[j] + extra);
    if j == s.len() - 1 {
        assert(s2.drop_last() =~= s.drop_last());
        assert(s2.last() == s[j] + extra);
        vstd::seq_lib::lemma_multiset_commutative(s[j], extra);
        assert(entries_multiset(s2) =~= entries_multiset(s).add(extra.to_multiset()));
    } else {
        assert(s2.drop_last() =~= s.drop_last().update(j, s.drop_last()[j] + extra));
        lemma_entries_multiset_update(s.drop_last(), j, extra);
        assert(s2.last() == s.last());
        assert(entries_multiset(s2) =~= entries_multiset(s).add(extra.to_multiset()));
    }
}

proof fn lemma_partial_rows_multiset<I>(lanes: Seq<Seq<I>>, moves: Seq<Path>, k: int)
    requires
        moves.len() == lanes.len(),
        moves_in_range(moves, lanes.len() as int),
        0 <= k <= lanes.len(),
    ensures
        entries_multiset(Seq::new(lanes.len(), |j: int| routed_prefix(lanes, moves, j, k)))
            == entries_multiset(lanes.take(k)),
    decreases k,
{
    let partial = Seq::new(lanes.len(), |j: int| routed_prefix(lanes, moves, j, k));
    if k == 0 {
        lemma_entries_multiset_empty_lanes(partial);
        assert(lanes.take(0).len() == 0);
    } else {
        let prev = Seq::new(lanes.len(), |j: int| routed_prefix(lanes, moves, j, k - 1));
        lemma_partial_rows_multiset(lanes, moves, k - 1);
        let t = target_lane(k - 1, moves[k - 1]);
        assert(0 <= t < lanes.len());
        assert(partial =~= prev.update(t, prev[t] + lanes[k - 1])) by {
            assert forall|j: int| 0 <= j < lanes.len() implies partial[j] == prev.update(
                t,
                prev[t] + lanes[k - 1],
            )[j] by {
                if j == t {
                    assert(routed_prefix(lanes, moves, j, k) == routed_prefix(lanes, moves, j, k - 1)
                        + lanes[k - 1]);
                } else {
                    assert(routed_prefix(lanes, moves, j, k) == routed_prefix(
                        lanes,
                        moves,
                        j,
                        k - 1,
                    ));
                }
            }
        }
        lemma_entries_multiset_update(prev, t, lanes[k - 1]);
        assert(lanes.take(k).drop_last() =~= lanes.take(k - 1));
        assert(lanes.take(k).last() == lanes[k - 1]);
        assert(entries_multiset(lanes.take(k)) == entries_multiset(lanes.take(k - 1)).add(
            lanes[k - 1].to_multiset(),
        ));
    }
}

/// Law: folding a row whose symbols all stay in range neither creates,
/// duplicates nor drops an entry — the multiset of entries across all lanes
/// is exactly the multiset before the row.
pub proof fn lemma_apply_row_conserves_entries<I>(lanes: Seq<Seq<I>>, moves: Seq<Path>)
    requires
        moves.len() == lanes.len(),
        moves_in_range(moves, lanes.len() as int),
    ensures
        entries_multiset(apply_row(lanes, moves)) == entries_multiset(lanes),
{
    lemma_partial_rows_multiset(lanes, moves, lanes.len() as int);
    assert(apply_row(lanes, moves) =~= Seq::new(
        lanes.len(),
        |j: int| routed_prefix(lanes, moves, j, lanes.len() as int),
    ));
    assert(lanes.take(lanes.len() as int) =~= lanes);
}

/// Law: seeding from an entry list puts exactly those entries in the mapping,
/// one per lane, so the mapping's entry multiset is the input's.
pub proof fn lemma_seeded_lanes_multiset<I>(es: Seq<I>)
    ensures
        entries_multiset(seeded_lanes(es)) == es.to_multiset(),
    decreases es.len(),
{
    if es.len() == 0 {
        assert(es.to_multiset() =~= Multiset::<I>::empty()) by {
            assert forall|x: I| es.to_multiset().count(x) == 0 by {
                assert(!es.contains(x));
            }
        }
    } else {
        let prefix = es.drop_last();
        lemma_seeded_lanes_multiset(prefix);
        assert(seeded_lanes(es).drop_last() =~~= seeded_lanes(prefix));
        assert(seeded_lanes(es).last() == seq![es.last()]);
        assert(seq![es.last()].to_multiset() =~= Multiset::<I>::empty().insert(es.last())) by {
            assert(seq![es.last()] =~= Seq::<I>::empty().push(es.last()));
            assert(Seq::<I>::empty().to_multiset() =~= Multiset::<I>::empty()) by {
                assert forall|x: I| Seq::<I>::empty().to_multiset().count(x) == 0 by {
                    assert(!Seq::<I>::empty().contains(x));
                }
            }
        }
        assert(es =~= prefix.push(es.last()));
        assert(es.to_multiset() == prefix.to_multiset().insert(es.last()));
        assert(entries_multiset(seeded_lanes(es)) =~= es.to_multiset());
    }
}

/// The mapping after folding a whole sequence of rows, first row first.
pub open spec fn apply_rows<I>(lanes: Seq<Seq<I>>, rows: Seq<Seq<Path>>) -> Seq<Seq<I>>
    decreases rows.len(),
{
    if rows.len() == 0 {
        lanes
    } else {
        apply_rows(apply_row(lanes, rows[0]), rows.skip(1))
    }
}

/// Every row has one symbol per lane and every symbol stays in range.
pub open spec fn rows_in_range(rows: Seq<Seq<Path>>, n: int) -> bool {
    forall|r: int|
        0 <= r < rows.len() ==> #[trigger] rows[r].len() == n && moves_in_range(rows[r], n)
}

proof fn lemma_apply_rows_conserve<I>(lanes: Seq<Seq<I>>, rows: Seq<Seq<Path>>)
    requires
        rows_in_range(rows, lanes.len() as int),
    ensures
        apply_rows(lanes, rows).len() == lanes.len(),
        entries_multiset(apply_rows(lanes, rows)) == entries_multiset(lanes),
    decreases rows.len(),
{
    if rows.len() == 0 {
    } else {
        lemma_apply_row_conserves_entries(lanes, rows[0]);
        let next = apply_row(lanes, rows[0]);
        assert(rows_in_range(rows.skip(1), next.len() as int)) by {
            assert forall|r: int|
                0 <= r < rows.skip(1).len() implies #[trigger] rows.skip(1)[r].len() == next.len()
                && moves_in_range(rows.skip(1)[r], next.len() as int) by {
                assert(rows.skip(1)[r] == rows[r + 1]);
            }
        }
        lemma_apply_rows_conserve(next, rows.skip(1));
    }
}

/// Law: seed the mapping from the entry list, fold any number of rows whose
/// symbols all stay in range, and the multiset of entries across all lanes is
/// still exactly the multiset of the entries given — none created, duplicated
/// or dropped.
pub proof fn lemma_entry_conservation<I>(es: Seq<I>, rows: Seq<Seq<Path>>)
    requires
        rows_in_range(rows, es.len() as int),
    ensures
        entries_multiset(apply_rows(seeded_lanes(es), rows)) == es.to_multiset(),
{
    lemma_seeded_lanes_multiset(es);
    lemma_apply_rows_conserve(seeded_lanes(es), rows);
}

/// The entries of one lane, each paired with that lane's output label.
pub open spec fn lane_pairs<I, O>(lane: Seq<I>, out: O) -> Seq<(I, O)> {
    lane.map_values(|e: I| (e, out))
}

/// Every (entry, output) pair of the mapping: for each lane in index order,
/// each entry of the lane paired with the output at that lane.
pub open spec fn paths_view<I, O>(lanes: Seq<Seq<I>>, outputs: Seq<O>) -> Seq<(I, O)>
    decreases lanes.len(),
{
    if lanes.len() == 0 {
        Seq::empty()
    } else {
        paths_view(lanes.drop_last(), outputs) + lane_pairs(
            lanes.last(),
            outputs[lanes.len() - 1],
        )
    }
}

/// The pairs a result vector of references denotes, with the references
/// followed.
pub open spec fn deref_pairs<I, O>(r: Seq<(&I, &O)>) -> Seq<(I, O)> {
    r.map_values(|p: (&I, &O)| (*p.0, *p.1))
}

/// The lane index tracker. `I` is the entry label type, `O` the output label
/// type; lane `i` of the mapping holds the entries currently at lane `i`.
pub struct StickPathSolver<I, O> {
    outputs: Vec<O>,
    lanes: Vec<Vec<I>>,
}

impl<I, O> StickPathSolver<I, O> {
    /// The lane index mapping: the entries at each lane, in lane order.
    pub closed spec fn lanes_view(&self) -> Seq<Seq<I>> {
        self.lanes@.map_values(|l: Vec<I>| l@)
    }

    /// The registered outputs, in lane order.
    pub closed spec fn outputs_view(&self) -> Seq<O> {
        self.outputs@
    }

    /// A fresh tracker with no lanes and no outputs.
    pub fn new() -> (s: StickPathSolver<I, O>)
        ensures
            s.lanes_view() == Seq::<Seq<I>>::empty(),
            s.outputs_view() == Seq::<O>::empty(),
    {
        let s = StickPathSolver { outputs: Vec::new(), lanes: Vec::new() };
        proof {
            assert(s.lanes_view() =~= Seq::<Seq<I>>::empty());
        }
        s
    }

    /// Seeds the mapping from the entry list: lane `i` holds exactly
    /// `entries[i]`, for `i` in `0 .. entries.len()`. Never fails; the error
    /// type is reserved for future size validation.
    pub fn add_entries(&mut self, entries: Vec<I>) -> (r: Result<(), InputError>)
        ensures
            r is Ok,
            final(self).lanes_view() == seeded_lanes(entries@),
            final(self).outputs_view() == old(self).outputs_view(),
            entries_multiset(final(self).lanes_view()) == entries@.to_multiset(),
    {
        let ghost orig = entries@;
        let mut rest = entries;
        let mut lanes: Vec<Vec<I>> = Vec::new();
        proof {
            assert(rest@ =~= orig.skip(0));
            assert(lanes@.map_values(|l: Vec<I>| l@) =~~= seeded_lanes(orig.take(0)));
        }
        while rest.len() > 0
            invariant
                lanes@.len() + rest@.len() == orig.len(),
                rest@ == orig.skip(lanes@.len() as int),
                lanes@.map_values(|l: Vec<I>| l@) == seeded_lanes(orig.take(lanes@.len() as int)),
            decreases rest@.len(),
        {
            let ghost k = lanes@.len() as int;
            let e = rest.remove(0);
            proof {
                assert(e == orig[k]);
                assert(orig.skip(k).remove(0) =~= orig.skip(k + 1));
            }
            let mut lane: Vec<I> = Vec::new();
            lane.push(e);
            let ghost prev_lanes = lanes@;
            lanes.push(lane);
            proof {
                assert(lane@ =~= seq![orig[k]]);
                let lv = lanes@.map_values(|l: Vec<I>| l@);
                let sv = seeded_lanes(orig.take(k + 1));
                assert forall|i2: int| 0 <= i2 < lv.len() implies lv[i2] == sv[i2] by {
                    if i2 < k {
                        assert(lv[i2] == prev_lanes.map_values(|l: Vec<I>| l@)[i2]);
                        assert(sv[i2] == seeded_lanes(orig.take(k))[i2]);
                    } else {
                        assert(lv[i2] == lane@);
                        assert(sv[i2] =~= seq![orig[k]]);
                    }
                }
                assert(lv =~= sv);
            }
        }
        proof {
            assert(orig.take(orig.len() as int) =~= orig);
        }
        self.lanes = lanes;
        proof {
            lemma_seeded_lanes_multiset(orig);
        }
        Ok(())
    }

    /// Registers the outputs, indexed by final lane position. Fails with
    /// `IncorrectInputSize`, leaving the tracker unchanged, exactly when the
    /// output count differs from the current lane count.
    pub fn add_outputs(&mut self, outputs: Vec<O>) -> (r: Result<(), InputError>)
        ensures
            outputs@.len() == old(self).lanes_view().len() ==> r is Ok
                && final(self).outputs_view() == outputs@
                && final(self).lanes_view() == old(self).lanes_view(),
            outputs@.len() != old(self).lanes_view().len() ==> r == Err::<(), InputError>(
                InputError::IncorrectInputSize,
            ) && *final(self) == *old(self),
    {
        if outputs.len() != self.lanes.len() {
            return Err(InputError::IncorrectInputSize);
        }
        self.outputs = outputs;
        Ok(())
    }

    /// Folds one row of rung notation into the mapping. The row text is
    /// normalized, split into tokens, and parsed into one movement symbol per
    /// lane; every entry at lane `i` moves to the lane its symbol routes to.
    /// The update is atomic: on any error the mapping is left exactly as it
    /// was, and the error is the one `row_moves` names for this row.
    pub fn add_path(&mut self, path: &str) -> (r: Result<(), ParserError>)
        ensures
            match row_moves(path@, old(self).lanes_view().len() as int) {
                Ok(moves) => r is Ok && final(self).lanes_view() == apply_row(
                    old(self).lanes_view(),
                    moves,
                ) && final(self).outputs_view() == old(self).outputs_view() && entries_multiset(
                    final(self).lanes_view(),
                ) == entries_multiset(old(self).lanes_view()),
                Err(e) => r == Err::<(), ParserError>(e) && *final(self) == *old(self),
            },
    {
        let ghost n_lanes = self.lanes@.len() as int;
        let ghost toks = crate::notation::split_ws(crate::notation::normalize_spec(path@));
        let normalized = crate::notation::replace_chars(path);
        let tokens = crate::notation::tokenize(normalized.as_str());
        proof {
            assert(tokens@.map_values(|t: String| t@) == toks);
        }
        if tokens.len() == 0 {
            return Err(ParserError::Empty);
        }
        let mut moves: Vec<Path> = Vec::new();
        let mut k: usize = 0;
        while k < tokens.len()
            invariant
                k <= tokens@.len(),
                toks == crate::notation::split_ws(crate::notation::normalize_spec(path@)),
                toks.len() > 0,
                n_lanes == old(self).lanes_view().len() as int,
                tokens@.map_values(|t: String| t@) == toks,
                moves@.len() == k,
                forall|k2: int|
                    0 <= k2 < k ==> #[trigger] parse_token(toks[k2]) is Some && moves@[k2]
                        == parse_token(toks[k2]).unwrap(),
                *self == *old(self),
            decreases tokens@.len() - k,
        {
            match Path::from_token(tokens[k].as_str()) {
                Ok(p) => {
                    proof {
                        assert(toks[k as int] == tokens@.map_values(|t: String| t@)[k as int]);
                    }
                    moves.push(p);
                },
                Err(e) => {
                    proof {
                        assert(parse_token(toks[k as int]) is None);
                    }
                    return Err(e);
                },
            }
            k = k + 1;
        }
        let ghost mv = Seq::new(toks.len(), |k2: int| parse_token(toks[k2]).unwrap());
        proof {
            assert(moves@ =~= mv);
        }
        let n = self.lanes.len();
        if moves.len() != n {
            return Err(ParserError::IncorrectRowLength);
        }
        let mut targets: Vec<usize> = Vec::new();
        let mut k: usize = 0;
        while k < n
            invariant
                k <= n,
                toks == crate::notation::split_ws(crate::notation::normalize_spec(path@)),
                toks.len() > 0,
                toks.len() == n,
                n_lanes == n,
                n_lanes == old(self).lanes_view().len() as int,
                forall|k2: int| 0 <= k2 < toks.len() ==> #[trigger] parse_token(toks[k2]) is Some,
                mv == Seq::new(toks.len(), |k2: int| parse_token(toks[k2]).unwrap()),
                moves@ == mv,
                moves@.len() == n,
                targets@.len() == k,
                forall|i2: int|
                    0 <= i2 < k ==> #[trigger] targets@[i2] as int == target_lane(i2, mv[i2])
                        && 0 <= targets@[i2] < n,
                *self == *old(self),
            decreases n - k,
        {
            let t: usize = match moves[k] {
                Path::Down => k,
                Path::Left => {
                    if k == 0 {
                        proof {
                            assert(target_lane(0, mv[0]) < 0);
                            assert(!moves_in_range(mv, n_lanes));
                        }
                        return Err(ParserError::IndexOutOfRange);
                    }
                    k - 1
                },
                Path::Right => {
                    if k + 1 >= n {
                        proof {
                            assert(target_lane(k as int, mv[k as int]) >= n_lanes);
                            assert(!moves_in_range(mv, n_lanes));
                        }
                        return Err(ParserError::IndexOutOfRange);
                    }
                    k + 1
                },
            };
            targets.push(t);
            k = k + 1;
        }
        proof {
            assert forall|i2: int| 0 <= i2 < mv.len() implies 0 <= #[trigger] target_lane(
                i2,
                mv[i2],
            ) < n_lanes by {
                assert(targets@[i2] as int == target_lane(i2, mv[i2]));
            }
            assert(moves_in_range(mv, n_lanes));
        }
        // Every check passed: rebuild the mapping in a scratch structure and
        // swap it in, so the update is all-or-nothing.
        let mut new_lanes: Vec<Vec<I>> = Vec::new();
        let mut j: usize = 0;
        while j < n
            invariant
                j <= n,
                new_lanes@.len() == j,
                forall|jj: int| 0 <= jj < j ==> #[trigger] new_lanes@[jj]@.len() == 0,
            decreases n - j,
        {
            new_lanes.push(Vec::new());
            j = j + 1;
        }
        let ghost orig_vecs = self.lanes@;
        let ghost orig = self.lanes@.map_values(|l: Vec<I>| l@);
        let ghost out_snap = self.outputs;
        proof {
            assert(self.lanes@ =~= orig_vecs.skip(0));
            assert forall|jj: int| 0 <= jj < n implies new_lanes@[jj]@ == routed_prefix(
                orig,
                mv,
                jj,
                0,
            ) by {
                assert(new_lanes@[jj]@ =~= Seq::<I>::empty());
            }
        }
        let mut i: usize = 0;
        while i < n
            invariant
                i <= n,
                n == orig.len(),
                n == mv.len(),
                targets@.len() == n,
                forall|i2: int|
                    0 <= i2 < n ==> #[trigger] targets@[i2] as int == target_lane(i2, mv[i2])
                        && 0 <= targets@[i2] < n,
                self.lanes@ == orig_vecs.skip(i as int),
                orig == orig_vecs.map_values(|l: Vec<I>| l@),
                self.outputs == out_snap,
                new_lanes@.len() == n,
                forall|jj: int|
                    0 <= jj < n ==> #[trigger] new_lanes@[jj]@ == routed_prefix(
                        orig,
                        mv,
                        jj,
                        i as int,
                    ),
            decreases n - i,
        {
            let mut lane = self.lanes.remove(0);
            proof {
                assert(orig_vecs.skip(i as int).remove(0) =~= orig_vecs.skip(i + 1 as int));
                assert(lane == orig_vecs[i as int]);
                assert(lane@ == orig[i as int]);
            }
            let t = targets[i];
            let ghost prev_new = new_lanes@;
            let ghost lane_view = lane@;
            new_lanes[t].append(&mut lane);
            proof {
                assert forall|jj: int| 0 <= jj < n implies new_lanes@[jj]@ == routed_prefix(
                    orig,
                    mv,
                    jj,
                    i + 1,
                ) by {
                    if jj == t {
                        assert(new_lanes@[jj]@ == prev_new[jj]@ + lane_view);
                        assert(target_lane(i as int, mv[i as int]) == jj);
                        assert(routed_prefix(orig, mv, jj, i + 1) == routed_prefix(
                            orig,
                            mv,
                            jj,
                            i as int,
                        ) + orig[i as int]);
                    } else {
                        assert(new_lanes@[jj]@ == prev_new[jj]@);
                        assert(routed_prefix(orig, mv, jj, i + 1) == routed_prefix(
                            orig,
                            mv,
                            jj,
                            i as int,
                        ));
                    }
                }
            }
            i = i + 1;
        }
        self.lanes = new_lanes;
        proof {
            let fv = self.lanes@.map_values(|l: Vec<I>| l@);
            assert forall|jj: int| 0 <= jj < n implies fv[jj] == apply_row(orig, mv)[jj] by {
                assert(fv[jj] == self.lanes@[jj]@);
            }
            assert(fv =~= apply_row(orig, mv));
            lemma_apply_row_conserves_entries(orig, mv);
        }
        Ok(())
    }

    /// Joins every entry to the output at its lane: for each lane in index
    /// order and each entry in that lane, one `(entry, output)` pair. Callers
    /// attach the outputs first, so there is one output per lane.
    pub fn get_paths<'a>(&'a self) -> (r: Vec<(&'a I, &'a O)>)
        requires
            self.outputs_view().len() == self.lanes_view().len(),
        ensures
            deref_pairs(r@) == paths_view(self.lanes_view(), self.outputs_view()),
    {
        let ghost lanes_v = self.lanes@.map_values(|l: Vec<I>| l@);
        let mut r: Vec<(&'a I, &'a O)> = Vec::new();
        let n = self.lanes.len();
        proof {
            assert(lanes_v.take(0).len() == 0);
            assert(deref_pairs(r@) =~= paths_view(lanes_v.take(0), self.outputs@));
        }
        let mut j: usize = 0;
        while j < n
            invariant
                j <= n,
                n == self.lanes@.len(),
                lanes_v == self.lanes@.map_values(|l: Vec<I>| l@),
                self.outputs@.len() == n,
                deref_pairs(r@) == paths_view(lanes_v.take(j as int), self.outputs@),
            decreases n - j,
        {
            let lane = &self.lanes[j];
            let out_ref = &self.outputs[j];
            let ghost r_entry = r@;
            let mut k: usize = 0;
            while k < lane.len()
                invariant
                    k <= lane@.len(),
                    lane@ == lanes_v[j as int],
                    0 <= j < lanes_v.len(),
                    *out_ref == self.outputs@[j as int],
                    deref_pairs(r@) == deref_pairs(r_entry) + lane_pairs(
                        lane@.take(k as int),
                        self.outputs@[j as int],
                    ),
                decreases lane@.len() - k,
            {
                let ghost prev = r@;
                r.push((&lane[k], out_ref));
                proof {
                    assert(deref_pairs(r@) =~= deref_pairs(prev).push(
                        (lane@[k as int], self.outputs@[j as int]),
                    ));
                    assert(lane_pairs(lane@.take(k + 1), self.outputs@[j as int]) =~= lane_pairs(
                        lane@.take(k as int),
                        self.outputs@[j as int],
                    ).push((lane@[k as int], self.outputs@[j as int])));
                    assert(deref_pairs(prev) + lane_pairs(
                        lane@.take(k as int),
                        self.outputs@[j as int],
                    ).push((lane@[k as int], self.outputs@[j as int])) =~= (deref_pairs(prev)
                        + lane_pairs(lane@.take(k as int), self.outputs@[j as int])).push(
                        (lane@[k as int], self.outputs@[j as int]),
                    ));
                }
                k = k + 1;
            }
            proof {
                assert(lane@.take(lane@.len() as int) =~= lane@);
                assert(lanes_v.take(j + 1).drop_last() =~= lanes_v.take(j as int));
                assert(lanes_v.take(j + 1).last() == lanes_v[j as int]);
                assert(paths_view(lanes_v.take(j + 1), self.outputs@) == paths_view(
                    lanes_v.take(j as int),
                    self.outputs@,
                ) + lane_pairs(lanes_v[j as int], self.outputs@[j as int]));
            }
            j = j + 1;
        }
        proof {
            assert(lanes_v.take(n as int) =~= lanes_v);
        }
        r
    }
}

} // verus!
