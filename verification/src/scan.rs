//! Scanning the displayed text for a motif.
//!
//! The viewer walks the text with two character offsets, `start` and `end`,
//! in the way the find window does on its text buffer: the window between the
//! two offsets is compared with the motif, and depending on what it holds the
//! two offsets move on.  Offsets are clamped to the text's end, as setting a
//! text iterator past the end of a buffer puts it at the end.  After a hit,
//! `end` is set to the motif's width as an absolute offset, so the next window
//! may run backwards from `start`; the window is then the text between the two
//! offsets.  The walk ends when `end` reaches the end of the text.
//!
//! The motif's width is its length in UTF-8 bytes, while offsets count
//! characters.

use vstd::prelude::*;
use vstd::string::*;
use vstd::utf8::*;

verus! {

/// What the scan does with the current window.
pub enum ScanMove {
    /// The window starts with a line break: both offsets move one character on.
    SkipLineStart,
    /// The window holds a line break further in: both offsets move two characters on.
    SkipLineInside,
    /// The window is the motif: it is recorded, and the scan goes on past it.
    Hit,
    /// Anything else: both offsets move two characters on.
    Miss,
}

/// The motif's width: the number of bytes of its UTF-8 encoding.
pub open spec fn motif_width(motif: Seq<char>) -> int {
    encode_utf8(motif).len() as int
}

/// Where an offset lands once set on a text of `n` characters.
pub open spec fn clamp_offset(x: int, n: int) -> int {
    if x < n {
        x
    } else {
        n
    }
}

/// The characters between two offsets, whichever comes first.
pub open spec fn window(text: Seq<char>, start: int, end: int) -> Seq<char> {
    if start <= end {
        text.subrange(start, end)
    } else {
        text.subrange(end, start)
    }
}

/// The move the scan makes from the window between `start` and `end`.
pub open spec fn scan_move(text: Seq<char>, motif: Seq<char>, start: int, end: int) -> ScanMove {
    let w = window(text, start, end);
    if w.len() > 0 && w[0] == '\n' {
        ScanMove::SkipLineStart
    } else if w.contains('\n') {
        ScanMove::SkipLineInside
    } else if w == motif {
        ScanMove::Hit
    } else {
        ScanMove::Miss
    }
}

/// The offsets after one move of the scan.
pub open spec fn scan_next(text: Seq<char>, motif: Seq<char>, start: int, end: int) -> (int, int) {
    let n = text.len() as int;
    let m = motif_width(motif);
    match scan_move(text, motif, start, end) {
        ScanMove::SkipLineStart => (clamp_offset(start + 1, n), clamp_offset(start + 1 + m, n)),
        ScanMove::Hit => (clamp_offset(start + m, n), clamp_offset(m, n)),
        _ => (clamp_offset(start + 2, n), clamp_offset(start + 2 + m, n)),
    }
}

/// The hits recorded by a scan from the offsets `start` and `end` that ends
/// within `fuel` moves, each as the pair of offsets at the time of the hit;
/// `None` when the scan does not end within `fuel` moves.
pub open spec fn scan_run(
    text: Seq<char>,
    motif: Seq<char>,
    start: int,
    end: int,
    fuel: nat,
) -> Option<Seq<(int, int)>>
    decreases fuel,
{
    if end == text.len() {
        Some(Seq::empty())
    } else if fuel == 0 {
        None
    } else {
        let next = scan_next(text, motif, start, end);
        match scan_run(text, motif, next.0, next.1, (fuel - 1) as nat) {
            Some(rest) => if scan_move(text, motif, start, end) is Hit {
                Some(seq![(start, end)] + rest)
            } else {
                Some(rest)
            },
            None => None,
        }
    }
}

/// The `end` offset that a scan of `text` starts with.
pub open spec fn first_end(text: Seq<char>, motif: Seq<char>) -> int {
    clamp_offset(motif_width(motif), text.len() as int)
}

/// The scan of `text` for `motif` ends.
pub open spec fn scan_halts(text: Seq<char>, motif: Seq<char>) -> bool {
    exists|fuel: nat| #[trigger] scan_run(text, motif, 0, first_end(text, motif), fuel) is Some
}

/// The hits of the scan of `text` for `motif`, when it ends.
pub open spec fn scan_hits(text: Seq<char>, motif: Seq<char>) -> Seq<(int, int)> {
    let fuel = choose|fuel: nat| #[trigger]
        scan_run(text, motif, 0, first_end(text, motif), fuel) is Some;
    scan_run(text, motif, 0, first_end(text, motif), fuel).unwrap()
}

/// Offset pairs as integers.
pub open spec fn offsets_view(pairs: Seq<(i32, i32)>) -> Seq<(int, int)> {
    pairs.map_values(|p: (i32, i32)| (p.0 as int, p.1 as int))
}

/// `acc` followed by what a run records, if it ends.
pub open spec fn after(acc: Seq<(int, int)>, run: Option<Seq<(int, int)>>) -> Option<Seq<(int, int)>> {
    match run {
        Some(rest) => Some(acc + rest),
        None => None,
    }
}

proof fn lemma_width_at_least_len(chars: Seq<char>)
    ensures
        motif_width(chars) >= chars.len(),
    decreases chars.len(),
{
    if chars.len() > 0 {
        lemma_width_at_least_len(chars.drop_first());
    }
}

/// A scan at a state whose hit leaves the state as it is never ends.
proof fn lemma_stuck_never_ends(text: Seq<char>, motif: Seq<char>, start: int, end: int, fuel: nat)
    requires
        end != text.len(),
        scan_move(text, motif, start, end) is Hit,
        scan_next(text, motif, start, end) == (start, end),
    ensures
        scan_run(text, motif, start, end, fuel) is None,
    decreases fuel,
{
    if fuel > 0 {
        lemma_stuck_never_ends(text, motif, start, end, (fuel - 1) as nat);
    }
}

/// A scan that has reached its end stays there.
proof fn lemma_ended(text: Seq<char>, motif: Seq<char>, start: int, end: int, fuel: nat)
    requires
        end == text.len(),
    ensures
        scan_run(text, motif, start, end, fuel) == Some(Seq::<(int, int)>::empty()),
{
}

/// Sets an offset on a text of `n` characters.
fn set_offset(x: i32, n: i32) -> (r: i32)
    requires
        0 <= x,
    ensures
        r == clamp_offset(x as int, n as int),
{
    if x < n {
        x
    } else {
        n
    }
}

/// The characters of `s`, in order.
pub(crate) fn chars_of(s: &str) -> (v: Vec<char>)
    ensures
        v@ == s@,
{
    let len = s.unicode_len();
    let mut v: Vec<char> = Vec::new();
    let mut i: usize = 0;
    while i < len
        invariant
            len == s@.len(),
            i <= len,
            v@ == s@.take(i as int),
        decreases len - i,
    {
        v.push(s.get_char(i));
        assert(v@ =~= s@.take(i + 1));
        i = i + 1;
    }
    assert(s@.take(len as int) =~= s@);
    v
}

/// The error type of the `cast` crate's checked conversions.
#[verifier::external_type_specification]
#[verifier::external_body]
pub struct ExCastError(cast::Error);

/// Converts a byte count to the offset type of the text view.
///
/// Trusted: `cast::i32` on a `usize`, which the crate's source implements as
/// `Ok(x as i32)` when `x` is at most `i32::MAX` and `Err(Error::Overflow)`
/// otherwise.  Which error variant comes back is not stated.
#[verifier::external_body]
fn to_i32(x: usize) -> (r: Result<i32, cast::Error>)
    ensures
        r is Ok <==> x <= i32::MAX,
        r matches Ok(v) ==> v == x,
{
    cast::i32(x)
}

/// The move from the window between `start` and `end`.
fn classify(text: &[char], motif: &Vec<char>, start: i32, end: i32) -> (mv: ScanMove)
    requires
        0 <= start <= text@.len(),
        0 <= end <= text@.len(),
    ensures
        mv == scan_move(text@, motif@, start as int, end as int),
{
    let ghost w = window(text@, start as int, end as int);
    let lo: usize = if start <= end { start as usize } else { end as usize };
    let hi: usize = if start <= end { end as usize } else { start as usize };
    assert(w =~= text@.subrange(lo as int, hi as int));
    if lo < hi && text[lo] == '\n' {
        return ScanMove::SkipLineStart;
    }
    assert(!(w.len() > 0 && w[0] == '\n'));
    let mut k: usize = lo;
    while k < hi
        invariant
            lo <= k <= hi,
            hi <= text@.len(),
            w =~= text@.subrange(lo as int, hi as int),
            w == window(text@, start as int, end as int),
            !(w.len() > 0 && w[0] == '\n'),
            forall|j: int| lo <= j < k ==> text@[j] != '\n',
        decreases hi - k,
    {
        if text[k] == '\n' {
            assert(w[k - lo] == '\n');
            assert(w.contains('\n'));
            return ScanMove::SkipLineInside;
        }
        k = k + 1;
    }
    assert(!w.contains('\n')) by {
        if w.contains('\n') {
            let j = choose|j: int| 0 <= j < w.len() && w[j] == '\n';
            assert(text@[lo + j] == '\n');
        }
    }
    if hi - lo != motif.len() {
        assert(w.len() != motif@.len());
        return ScanMove::Miss;
    }
    let mut i: usize = 0;
    while i < motif.len()
        invariant
            i <= motif@.len(),
            hi - lo == motif@.len(),
            hi <= text@.len(),
            w =~= text@.subrange(lo as int, hi as int),
            w == window(text@, start as int, end as int),
            !(w.len() > 0 && w[0] == '\n'),
            !w.contains('\n'),
            forall|j: int| 0 <= j < i ==> w[j] == motif@[j],
        decreases motif@.len() - i,
    {
        if text[lo + i] != motif[i] {
            assert(w[i as int] != motif@[i as int]);
            assert(w != motif@);
            return ScanMove::Miss;
        }
        i = i + 1;
    }
    assert(w =~= motif@);
    ScanMove::Hit
}

/// After `steps` moves from the first state, a scan of `text` stands at
/// `start` and `end` and has recorded `acc`.
#[verifier::opaque]
spec fn scan_reached(
    text: Seq<char>,
    motif: Seq<char>,
    acc: Seq<(int, int)>,
    start: int,
    end: int,
    steps: nat,
) -> bool {
    &&& forall|k: nat|
        k >= steps ==> #[trigger] scan_run(text, motif, 0, first_end(text, motif), k) == after(
            acc,
            scan_run(text, motif, start, end, (k - steps) as nat),
        )
    &&& forall|k: nat|
        k < steps ==> #[trigger] scan_run(text, motif, 0, first_end(text, motif), k) is None
}

proof fn lemma_reached_first(text: Seq<char>, motif: Seq<char>)
    ensures
        scan_reached(text, motif, Seq::empty(), 0, first_end(text, motif), 0),
{
    reveal(scan_reached);
    let e0 = first_end(text, motif);
    assert forall|k: nat| k >= 0 implies #[trigger] scan_run(text, motif, 0, e0, k) == after(
        Seq::empty(),
        scan_run(text, motif, 0, e0, (k - 0) as nat),
    ) by {
        let r = scan_run(text, motif, 0, e0, k);
        if r is Some {
            assert(Seq::<(int, int)>::empty() + r.unwrap() =~= r.unwrap());
        }
    }
}

/// One more move of the scan.
proof fn lemma_reached_next(
    text: Seq<char>,
    motif: Seq<char>,
    acc: Seq<(int, int)>,
    start: int,
    end: int,
    steps: nat,
)
    requires
        end != text.len(),
        scan_reached(text, motif, acc, start, end, steps),
    ensures
        scan_reached(
            text,
            motif,
            if scan_move(text, motif, start, end) is Hit {
                acc.push((start, end))
            } else {
                acc
            },
            scan_next(text, motif, start, end).0,
            scan_next(text, motif, start, end).1,
            steps + 1,
        ),
{
    reveal(scan_reached);
    let e0 = first_end(text, motif);
    let next = scan_next(text, motif, start, end);
    let hit = scan_move(text, motif, start, end) is Hit;
    let prefix: Seq<(int, int)> = if hit {
        seq![(start, end)]
    } else {
        Seq::empty()
    };
    let acc2 = if hit {
        acc.push((start, end))
    } else {
        acc
    };
    assert(acc2 =~= acc + prefix);
    assert forall|k: nat| k >= steps + 1 implies #[trigger] scan_run(text, motif, 0, e0, k) == after(
        acc2,
        scan_run(text, motif, next.0, next.1, (k - (steps + 1)) as nat),
    ) by {
        assert(scan_run(text, motif, 0, e0, k) == after(
            acc,
            scan_run(text, motif, start, end, (k - steps) as nat),
        ));
        let r = scan_run(text, motif, next.0, next.1, (k - (steps + 1)) as nat);
        if r is Some {
            if hit {
                assert(seq![(start, end)] + r.unwrap() =~= prefix + r.unwrap());
            } else {
                assert(r.unwrap() =~= prefix + r.unwrap());
            }
            assert(acc + (prefix + r.unwrap()) =~= acc2 + r.unwrap());
        }
    }
    assert forall|k: nat| k < steps + 1 implies #[trigger] scan_run(text, motif, 0, e0, k)
        is None by {
        if k == steps {
            assert(scan_run(text, motif, 0, e0, k) == after(
                acc,
                scan_run(text, motif, start, end, 0),
            ));
        }
    }
}

/// A scan that reaches a hit leaving its state as it is never ends.
proof fn lemma_reached_stuck(
    text: Seq<char>,
    motif: Seq<char>,
    acc: Seq<(int, int)>,
    start: int,
    end: int,
    steps: nat,
)
    requires
        end != text.len(),
        scan_move(text, motif, start, end) is Hit,
        scan_next(text, motif, start, end) == (start, end),
        scan_reached(text, motif, acc, start, end, steps),
    ensures
        !scan_halts(text, motif),
{
    reveal(scan_reached);
    let e0 = first_end(text, motif);
    assert forall|k: nat| !(#[trigger] scan_run(text, motif, 0, e0, k) is Some) by {
        if k >= steps {
            lemma_stuck_never_ends(text, motif, start, end, (k - steps) as nat);
        }
    }
}

/// A scan that reaches the end of the text ends, with what it has recorded.
proof fn lemma_reached_end(
    text: Seq<char>,
    motif: Seq<char>,
    acc: Seq<(int, int)>,
    start: int,
    end: int,
    steps: nat,
)
    requires
        end == text.len(),
        scan_reached(text, motif, acc, start, end, steps),
    ensures
        scan_halts(text, motif),
        scan_hits(text, motif) == acc,
{
    reveal(scan_reached);
    let e0 = first_end(text, motif);
    assert forall|k: nat| k >= steps implies #[trigger] scan_run(text, motif, 0, e0, k) == Some(
        acc,
    ) by {
        lemma_ended(text, motif, start, end, (k - steps) as nat);
        assert(acc + Seq::<(int, int)>::empty() =~= acc);
    }
    assert(scan_run(text, motif, 0, e0, steps) is Some);
}

proof fn lemma_offsets_push(v: Seq<(i32, i32)>, p: (i32, i32))
    ensures
        offsets_view(v.push(p)) == offsets_view(v).push((p.0 as int, p.1 as int)),
{
    assert(offsets_view(v.push(p)) =~= offsets_view(v).push((p.0 as int, p.1 as int)));
}

/// Scans `text` for `motif` and returns the offset pairs at which the motif
/// was found, each as the `start` and `end` offsets of the window that held
/// it; `None` when the scan never ends, which is exactly when the motif is
/// empty and the text is not (the empty window at the start of the text then
/// matches again and again).
pub fn find_motif(text: &[char], motif: &str) -> (res: Option<Vec<(i32, i32)>>)
    requires
        text@.len() + motif_width(motif@) + 2 <= i32::MAX,
    ensures
        res is Some <==> scan_halts(text@, motif@),
        res is Some <==> (motif@.len() > 0 || text@.len() == 0),
        res matches Some(hits) ==> offsets_view(hits@) == scan_hits(text@, motif@),
        res matches Some(hits) ==> hits@.len() <= text@.len(),
{
    let chars = chars_of(motif);
    let taille: i32 = match to_i32(motif.len()) {
        Ok(v) => v,
        // The width fits in an `i32` by the precondition, so this arm is dead.
        Err(_) => {
            return None;
        },
    };
    let n: i32 = text.len() as i32;
    let mut start: i32 = 0;
    let mut end: i32 = set_offset(taille, n);
    let mut hits: Vec<(i32, i32)> = Vec::new();
    let ghost tx = text@;
    let ghost mt = motif@;
    let ghost mut steps: nat = 0;
    proof {
        lemma_width_at_least_len(mt);
        lemma_reached_first(tx, mt);
        assert(offsets_view(hits@) =~= Seq::<(int, int)>::empty());
    }
    while end != n
        invariant
            n == tx.len(),
            tx == text@,
            mt == motif@,
            chars@ == mt,
            taille == motif_width(mt),
            mt.len() <= taille,
            n + taille + 2 <= i32::MAX,
            0 <= start <= n,
            0 <= end <= n,
            end == clamp_offset(start + taille, n as int) || end == clamp_offset(
                taille as int,
                n as int,
            ),
            taille == 0 ==> start == 0 && end == 0,
            hits@.len() <= start,
            scan_reached(tx, mt, offsets_view(hits@), start as int, end as int, steps),
        decreases n - start, n - end,
    {
        let mv = classify(text, &chars, start, end);
        let cur = start;
        proof {
            lemma_reached_next(tx, mt, offsets_view(hits@), start as int, end as int, steps);
            if taille == 0 {
                assert(window(tx, 0, 0) =~= mt);
            }
        }
        match mv {
            ScanMove::SkipLineStart => {
                start = set_offset(cur + 1, n);
                end = set_offset(cur + 1 + taille, n);
            },
            ScanMove::Hit => {
                let next_start = set_offset(cur + taille, n);
                let next_end = set_offset(taille, n);
                if next_start == start && next_end == end {
                    proof {
                        lemma_reached_stuck(
                            tx,
                            mt,
                            offsets_view(hits@),
                            start as int,
                            end as int,
                            steps,
                        );
                        lemma_halts_iff(tx, mt);
                    }
                    return None;
                }
                proof {
                    lemma_offsets_push(hits@, (start, end));
                }
                hits.push((start, end));
                start = next_start;
                end = next_end;
            },
            _ => {
                start = set_offset(cur + 2, n);
                end = set_offset(cur + 2 + taille, n);
            },
        }
        proof {
            steps = steps + 1;
        }
    }
    proof {
        lemma_reached_end(tx, mt, offsets_view(hits@), start as int, end as int, steps);
        lemma_halts_iff(tx, mt);
    }
    Some(hits)
}

/// Counts the occurrences of `motif` that the scan of `text` finds (see
/// [`find_motif`]): the number of windows that held the motif.
///
/// An empty motif on a non-empty text is left out: the scan then never ends.
pub fn count_word(text: &[char], motif: &str) -> (res: Option<i32>)
    requires
        text@.len() + motif_width(motif@) + 2 <= i32::MAX,
        motif@.len() > 0 || text@.len() == 0,
    ensures
        res == Some(scan_hits(text@, motif@).len() as i32),
        scan_hits(text@, motif@).len() <= text@.len(),
{
    proof {
        lemma_halts_iff(text@, motif@);
    }
    match find_motif(text, motif) {
        Some(hits) => {
            assert(offsets_view(hits@).len() == hits@.len());
            Some(hits.len() as i32)
        },
        None => None,
    }
}

/// The offset pairs of the windows that the find window tags for `motif` in
/// `text`, in the order the scan finds them (see [`find_motif`]).
///
/// An empty motif on a non-empty text is left out: the scan then never ends.
pub fn search(text: &[char], motif: &str) -> (ranges: Vec<(i32, i32)>)
    requires
        text@.len() + motif_width(motif@) + 2 <= i32::MAX,
        motif@.len() > 0 || text@.len() == 0,
    ensures
        offsets_view(ranges@) == scan_hits(text@, motif@),
{
    proof {
        lemma_halts_iff(text@, motif@);
    }
    match find_motif(text, motif) {
        Some(hits) => hits,
        None => Vec::new(),
    }
}

/// Every recorded hit lies within the text, its window is the motif, and the
/// motif then holds no line break.
proof fn lemma_run_hits(text: Seq<char>, motif: Seq<char>, start: int, end: int, fuel: nat)
    requires
        0 <= start <= text.len(),
        0 <= end <= text.len(),
    ensures
        scan_run(text, motif, start, end, fuel) matches Some(h) ==> forall|i: int|
            0 <= i < h.len() ==> {
                &&& 0 <= (#[trigger] h[i]).0 <= text.len()
                &&& 0 <= h[i].1 <= text.len()
                &&& window(text, h[i].0, h[i].1) == motif
                &&& !motif.contains('\n')
            },
    decreases fuel,
{
    if end != text.len() && fuel > 0 {
        let next = scan_next(text, motif, start, end);
        lemma_width_at_least_len(motif);
        lemma_run_hits(text, motif, next.0, next.1, (fuel - 1) as nat);
        let r = scan_run(text, motif, next.0, next.1, (fuel - 1) as nat);
        if r is Some && scan_move(text, motif, start, end) is Hit {
            let h = seq![(start, end)] + r.unwrap();
            let w = window(text, start, end);
            assert(!w.contains('\n'));
            assert(w == motif);
            assert forall|i: int| 0 <= i < h.len() implies {
                &&& 0 <= (#[trigger] h[i]).0 <= text.len()
                &&& 0 <= h[i].1 <= text.len()
                &&& window(text, h[i].0, h[i].1) == motif
                &&& !motif.contains('\n')
            } by {
                if i > 0 {
                    assert(h[i] == r.unwrap()[i - 1]);
                }
            }
        }
    }
}

proof fn lemma_run_stable(text: Seq<char>, motif: Seq<char>, start: int, end: int, fuel: nat, more: nat)
    requires
        scan_run(text, motif, start, end, fuel) is Some,
        fuel <= more,
    ensures
        scan_run(text, motif, start, end, more) == scan_run(text, motif, start, end, fuel),
    decreases fuel,
{
    if end != text.len() {
        let next = scan_next(text, motif, start, end);
        lemma_run_stable(text, motif, next.0, next.1, (fuel - 1) as nat, (more - 1) as nat);
    }
}

/// A scan that ends within `fuel` moves halts, with the hits of that run.
pub proof fn lemma_hits_of_run(text: Seq<char>, motif: Seq<char>, fuel: nat)
    requires
        scan_run(text, motif, 0, first_end(text, motif), fuel) is Some,
    ensures
        scan_halts(text, motif),
        scan_hits(text, motif) == scan_run(text, motif, 0, first_end(text, motif), fuel)->0,
{
    let e0 = first_end(text, motif);
    assert(scan_halts(text, motif));
    let chosen = choose|f: nat| #[trigger] scan_run(text, motif, 0, e0, f) is Some;
    if chosen <= fuel {
        lemma_run_stable(text, motif, 0, e0, chosen, fuel);
    } else {
        lemma_run_stable(text, motif, 0, e0, fuel, chosen);
    }
}

/// The states a scan can be in: offsets within the text; `end` either
/// `start` plus the motif's width (clamped), or, after a hit, the motif's
/// width itself at or before `start`; and a state with `start` at the end of
/// the text and `end` short of it has a window longer than the motif.
spec fn scan_state_ok(text: Seq<char>, motif: Seq<char>, start: int, end: int) -> bool {
    let n = text.len() as int;
    let m = motif_width(motif);
    &&& 0 <= start <= n
    &&& 0 <= end <= n
    &&& end == clamp_offset(start + m, n) || (end == clamp_offset(m, n) && start >= end)
    &&& (start == n && end != n) ==> n - end > motif.len()
}

/// One move keeps the state valid and moves `start` on, or keeps `start`
/// and moves `end` on.
proof fn lemma_state_step(text: Seq<char>, motif: Seq<char>, start: int, end: int)
    requires
        motif.len() > 0,
        end != text.len(),
        scan_state_ok(text, motif, start, end),
    ensures
        scan_state_ok(
            text,
            motif,
            scan_next(text, motif, start, end).0,
            scan_next(text, motif, start, end).1,
        ),
        scan_next(text, motif, start, end).0 > start || (scan_next(text, motif, start, end).0
            == start && scan_next(text, motif, start, end).1 > end),
{
    lemma_width_at_least_len(motif);
    let n = text.len() as int;
    let m = motif_width(motif);
    let w = window(text, start, end);
    assert(w.len() == if start <= end {
        end - start
    } else {
        start - end
    });
    if scan_move(text, motif, start, end) is Hit {
        assert(w == motif);
        assert(start < n);
    }
}

/// From a valid state, the scan for a non-empty motif ends.
proof fn lemma_state_halts(text: Seq<char>, motif: Seq<char>, start: int, end: int)
    requires
        motif.len() > 0,
        scan_state_ok(text, motif, start, end),
    ensures
        exists|fuel: nat| #[trigger] scan_run(text, motif, start, end, fuel) is Some,
    decreases text.len() - start, text.len() - end,
{
    if end == text.len() {
        assert(scan_run(text, motif, start, end, 0) is Some);
    } else {
        let next = scan_next(text, motif, start, end);
        lemma_state_step(text, motif, start, end);
        lemma_state_halts(text, motif, next.0, next.1);
        let f = choose|fuel: nat| #[trigger] scan_run(text, motif, next.0, next.1, fuel) is Some;
        assert(scan_run(text, motif, start, end, f + 1) is Some);
    }
}

/// Law: the scan ends exactly when the motif is not empty or the text is
/// empty; an empty motif on a non-empty text keeps matching the empty window
/// at the start of the text forever.
pub proof fn lemma_halts_iff(text: Seq<char>, motif: Seq<char>)
    ensures
        scan_halts(text, motif) <==> (motif.len() > 0 || text.len() == 0),
{
    let e0 = first_end(text, motif);
    if motif.len() > 0 {
        lemma_width_at_least_len(motif);
        lemma_state_halts(text, motif, 0, e0);
        let f = choose|fuel: nat| #[trigger] scan_run(text, motif, 0, e0, fuel) is Some;
        assert(scan_run(text, motif, 0, e0, f) is Some);
    } else if text.len() == 0 {
        assert(scan_run(text, motif, 0, e0, 0) is Some);
    } else {
        lemma_empty_motif_never_ends(text, motif);
    }
}

/// Law: every window that the scan tags lies within the text and spells the
/// motif exactly; so a motif holding a line break is never found.
pub proof fn lemma_hits_spell_motif(text: Seq<char>, motif: Seq<char>)
    requires
        scan_halts(text, motif),
    ensures
        forall|i: int|
            0 <= i < scan_hits(text, motif).len() ==> {
                &&& 0 <= (#[trigger] scan_hits(text, motif)[i]).0 <= text.len()
                &&& 0 <= scan_hits(text, motif)[i].1 <= text.len()
                &&& window(
                    text,
                    scan_hits(text, motif)[i].0,
                    scan_hits(text, motif)[i].1,
                ) == motif
            },
        motif.contains('\n') ==> scan_hits(text, motif).len() == 0,
{
    let e0 = first_end(text, motif);
    let fuel = choose|fuel: nat| #[trigger] scan_run(text, motif, 0, e0, fuel) is Some;
    lemma_run_hits(text, motif, 0, e0, fuel);
    let h = scan_hits(text, motif);
    if h.len() > 0 {
        assert(h[0] == h[0]);
    }
}

/// Law: a motif at least as wide as the text is never found, and the scan
/// ends at once.
pub proof fn lemma_wide_motif_not_found(text: Seq<char>, motif: Seq<char>)
    requires
        motif_width(motif) >= text.len(),
    ensures
        scan_halts(text, motif),
        scan_hits(text, motif) == Seq::<(int, int)>::empty(),
{
    lemma_ended(text, motif, 0, first_end(text, motif), 0);
    lemma_hits_of_run(text, motif, 0);
}

/// Law: on a non-empty text, the scan for an empty motif never ends.
pub proof fn lemma_empty_motif_never_ends(text: Seq<char>, motif: Seq<char>)
    requires
        motif.len() == 0,
        text.len() > 0,
    ensures
        !scan_halts(text, motif),
{
    assert(motif_width(motif) == 0) by {
        assert(encode_utf8(motif) =~= Seq::<u8>::empty());
    }
    assert(window(text, 0, 0) =~= motif);
    assert forall|k: nat| !(#[trigger] scan_run(text, motif, 0, first_end(text, motif), k) is Some) by {
        lemma_stuck_never_ends(text, motif, 0, 0, k);
    }
}

/// Law: the count that [`count_word`] gives is the number of windows that
/// [`search`] tags for the same text and motif.
pub proof fn lemma_count_is_number_of_ranges(
    text: Seq<char>,
    motif: Seq<char>,
    ranges: Seq<(i32, i32)>,
    count: Option<i32>,
)
    requires
        scan_halts(text, motif),
        text.len() + motif_width(motif) + 2 <= i32::MAX,
        offsets_view(ranges) == scan_hits(text, motif),
        count == Some(scan_hits(text, motif).len() as i32),
        scan_hits(text, motif).len() <= text.len(),
    ensures
        count == Some(ranges.len() as i32),
{
    assert(offsets_view(ranges).len() == ranges.len());
}

/// Walking a line: from the window at `q`, the scan compares the windows at
/// `q`, `q + 2`, `q + 4`, ... (one byte of hex text at a time, whatever the
/// motif's width), so when none of them before `q + 2 * steps` is the motif
/// and the window there is, that window is the first hit.
proof fn lemma_line_walk(
    text: Seq<char>,
    motif: Seq<char>,
    q: int,
    steps: nat,
    fuel: nat,
)
    requires
        motif.len() > 0,
        0 <= q,
        q + 2 * steps + motif_width(motif) < text.len(),
        forall|i: int| q <= i < q + 2 * steps + motif_width(motif) ==> text[i] != '\n',
        text.subrange(q + 2 * steps, q + 2 * steps + motif_width(motif)) == motif,
        forall|j: int|
            0 <= j < steps ==> #[trigger] text.subrange(q + 2 * j, q + 2 * j + motif_width(motif))
                != motif,
    ensures
        scan_run(text, motif, q, q + motif_width(motif), fuel) matches Some(h) ==> h.len() > 0
            && h[0] == (q + 2 * steps, q + 2 * steps + motif_width(motif)),
    decreases steps,
{
    let m = motif_width(motif);
    let n = text.len() as int;
    lemma_width_at_least_len(motif);
    let w = window(text, q, q + m);
    assert(w == text.subrange(q, q + m));
    assert(!w.contains('\n')) by {
        if w.contains('\n') {
            let j = choose|j: int| 0 <= j < w.len() && w[j] == '\n';
            assert(text[q + j] == '\n');
        }
    }
    assert(!(w.len() > 0 && w[0] == '\n')) by {
        if w.len() > 0 {
            assert(w[0] == text[q]);
        }
    }
    if steps == 0 {
        assert(scan_move(text, motif, q, q + m) is Hit);
    } else {
        assert(text.subrange(q + 2 * 0, q + 2 * 0 + m) != motif);
        assert(scan_move(text, motif, q, q + m) is Miss);
        assert(scan_next(text, motif, q, q + m) == (q + 2, q + 2 + m));
        if fuel > 0 {
            assert forall|i: int| q + 2 <= i < (q + 2) + 2 * ((steps - 1) as nat) + m implies text[i]
                != '\n' by {}
            assert forall|j: int| 0 <= j < ((steps - 1) as nat) implies #[trigger] text.subrange(
                (q + 2) + 2 * j,
                (q + 2) + 2 * j + m,
            ) != motif by {
                assert(text.subrange(q + 2 * (j + 1), q + 2 * (j + 1) + m) != motif);
                assert((q + 2) + 2 * j == q + 2 * (j + 1));
            }
            lemma_line_walk(text, motif, q + 2, (steps - 1) as nat, (fuel - 1) as nat);
        }
    }
}

/// The hits of a scan that ends are those of a run from its first state.
proof fn lemma_hits_some_run(text: Seq<char>, motif: Seq<char>) -> (fuel: nat)
    requires
        scan_halts(text, motif),
    ensures
        scan_run(text, motif, 0, first_end(text, motif), fuel) == Some(scan_hits(text, motif)),
{
    let e0 = first_end(text, motif);
    let c = choose|f: nat| #[trigger] scan_run(text, motif, 0, e0, f) is Some;
    assert(scan_run(text, motif, 0, e0, c) is Some);
    c
}

/// Law: on a line, the scan looks for the motif at every even offset (one
/// byte of hex text at a time, whatever the motif's width): the first hit is
/// the first even offset `p` at which the motif occurs, provided no line
/// break comes before the end of that occurrence and the occurrence ends
/// before the text does.
pub proof fn lemma_first_hit_on_line(text: Seq<char>, motif: Seq<char>, p: int)
    requires
        motif.len() > 0,
        0 <= p,
        p % 2 == 0,
        p + motif_width(motif) < text.len(),
        forall|i: int| 0 <= i < p + motif_width(motif) ==> text[i] != '\n',
        text.subrange(p, p + motif_width(motif)) == motif,
        forall|q: int|
            0 <= q < p && q % 2 == 0 ==> #[trigger] text.subrange(q, q + motif_width(motif))
                != motif,
    ensures
        scan_hits(text, motif).len() > 0,
        scan_hits(text, motif)[0] == (p, p + motif_width(motif)),
{
    let m = motif_width(motif);
    lemma_halts_iff(text, motif);
    let fuel = lemma_hits_some_run(text, motif);
    let steps = (p / 2) as nat;
    assert(p == 2 * steps);
    assert forall|j: int| 0 <= j < steps implies #[trigger] text.subrange(
        0 + 2 * j,
        0 + 2 * j + m,
    ) != motif by {
        assert((2 * j) % 2 == 0);
        assert(text.subrange(2 * j, 2 * j + m) != motif);
    }
    assert(first_end(text, motif) == 0 + m);
    lemma_line_walk(text, motif, 0, steps, fuel);
}

/// Crossing a line break: from the window at `q`, an even number `2 * k` of
/// characters before the line break at `brk`, the scan moves two characters
/// at a time (past windows that hold the line break too), then one character
/// from the window that starts with the line break, to the window that starts
/// the next line.
proof fn lemma_cross_line_break(
    text: Seq<char>,
    motif: Seq<char>,
    q: int,
    k: nat,
    brk: int,
    fuel: nat,
)
    requires
        motif.len() > 0,
        0 <= q,
        brk == q + 2 * k,
        brk + 1 + motif_width(motif) < text.len(),
        text[brk] == '\n',
        forall|i: int| q <= i < brk ==> text[i] != '\n',
        forall|i: int| brk + 1 <= i < brk + 1 + motif_width(motif) ==> text[i] != '\n',
        forall|j: int|
            0 <= j < k && q + 2 * j + motif_width(motif) <= brk ==> #[trigger] text.subrange(
                q + 2 * j,
                q + 2 * j + motif_width(motif),
            ) != motif,
        text.subrange(brk + 1, brk + 1 + motif_width(motif)) == motif,
    ensures
        scan_run(text, motif, q, q + motif_width(motif), fuel) matches Some(h) ==> h.len() > 0
            && h[0] == (brk + 1, brk + 1 + motif_width(motif)),
    decreases k,
{
    let m = motif_width(motif);
    lemma_width_at_least_len(motif);
    let w = window(text, q, q + m);
    assert(w == text.subrange(q, q + m));
    if fuel > 0 {
        if k == 0 {
            assert(w[0] == '\n');
            assert(scan_move(text, motif, q, q + m) is SkipLineStart);
            assert(scan_next(text, motif, q, q + m) == (brk + 1, brk + 1 + m));
            lemma_line_walk(text, motif, brk + 1, 0, (fuel - 1) as nat);
        } else {
            assert(w[0] == text[q]);
            if q + m <= brk {
                assert(!w.contains('\n')) by {
                    if w.contains('\n') {
                        let j = choose|j: int| 0 <= j < w.len() && w[j] == '\n';
                        assert(text[q + j] == '\n');
                    }
                }
                assert(text.subrange(q + 2 * 0, q + 2 * 0 + m) != motif);
                assert(scan_move(text, motif, q, q + m) is Miss);
            } else {
                assert(w[brk - q] == '\n');
                assert(w.contains('\n'));
                assert(scan_move(text, motif, q, q + m) is SkipLineInside);
            }
            assert(scan_next(text, motif, q, q + m) == (q + 2, q + 2 + m));
            assert forall|j: int|
                0 <= j < ((k - 1) as nat) && (q + 2) + 2 * j + m <= brk implies #[trigger] text.subrange(
                (q + 2) + 2 * j,
                (q + 2) + 2 * j + m,
            ) != motif by {
                assert(text.subrange(q + 2 * (j + 1), q + 2 * (j + 1) + m) != motif);
                assert((q + 2) + 2 * j == q + 2 * (j + 1));
            }
            lemma_cross_line_break(text, motif, q + 2, (k - 1) as nat, brk, (fuel - 1) as nat);
        }
    }
}

/// Law: a line of even length brings the scan, past its line break, to the
/// first character of the next line: when the motif does not occur at an
/// even offset of the first line (of hex text, one byte every two
/// characters), an occurrence that starts the next line is the first hit.
pub proof fn lemma_hit_after_line_break(text: Seq<char>, motif: Seq<char>, brk: int)
    requires
        motif.len() > 0,
        0 <= brk,
        brk % 2 == 0,
        brk + 1 + motif_width(motif) < text.len(),
        text[brk] == '\n',
        forall|i: int| 0 <= i < brk ==> text[i] != '\n',
        !motif.contains('\n'),
        forall|q: int|
            0 <= q && q % 2 == 0 && q + motif_width(motif) <= brk ==> #[trigger] text.subrange(
                q,
                q + motif_width(motif),
            ) != motif,
        text.subrange(brk + 1, brk + 1 + motif_width(motif)) == motif,
    ensures
        scan_hits(text, motif).len() > 0,
        scan_hits(text, motif)[0] == (brk + 1, brk + 1 + motif_width(motif)),
{
    let m = motif_width(motif);
    lemma_width_at_least_len(motif);
    lemma_halts_iff(text, motif);
    let fuel = lemma_hits_some_run(text, motif);
    let k = (brk / 2) as nat;
    assert(brk == 0 + 2 * k);
    assert forall|i: int| brk + 1 <= i < brk + 1 + m implies text[i] != '\n' by {
        let sub = text.subrange(brk + 1, brk + 1 + m);
        assert(sub[i - (brk + 1)] == text[i]);
        if text[i] == '\n' {
            assert(motif.contains('\n'));
        }
    }
    assert forall|j: int| 0 <= j < k && 0 + 2 * j + m <= brk implies #[trigger] text.subrange(
        0 + 2 * j,
        0 + 2 * j + m,
    ) != motif by {
        assert((2 * j) % 2 == 0);
        assert(text.subrange(2 * j, 2 * j + m) != motif);
    }
    assert(first_end(text, motif) == 0 + m);
    lemma_cross_line_break(text, motif, 0, k, brk, fuel);
}

/// Law: after a hit at the very start of the text, the scan resumes two
/// characters past the motif (the window it compares next, between the
/// motif's end and the motif's width as an offset, is empty): on the same
/// line, the next hit is the first occurrence at `width + 2`, `width + 4`, ...
pub proof fn lemma_second_hit_after_start(text: Seq<char>, motif: Seq<char>, p: int)
    requires
        motif.len() > 0,
        motif_width(motif) + 2 <= p,
        (p - motif_width(motif)) % 2 == 0,
        p + motif_width(motif) < text.len(),
        forall|i: int| 0 <= i < p + motif_width(motif) ==> text[i] != '\n',
        text.subrange(0, motif_width(motif)) == motif,
        text.subrange(p, p + motif_width(motif)) == motif,
        forall|q: int|
            motif_width(motif) + 2 <= q < p && (q - motif_width(motif)) % 2 == 0
                ==> #[trigger] text.subrange(q, q + motif_width(motif)) != motif,
    ensures
        scan_hits(text, motif).len() > 1,
        scan_hits(text, motif)[0] == (0int, motif_width(motif)),
        scan_hits(text, motif)[1] == (p, p + motif_width(motif)),
{
    let m = motif_width(motif);
    let n = text.len() as int;
    lemma_width_at_least_len(motif);
    lemma_halts_iff(text, motif);
    let fuel = lemma_hits_some_run(text, motif);
    let e0 = first_end(text, motif);
    assert(e0 == m);
    let w0 = window(text, 0, m);
    assert(w0 == text.subrange(0, m));
    assert(!w0.contains('\n')) by {
        if w0.contains('\n') {
            let j = choose|j: int| 0 <= j < w0.len() && w0[j] == '\n';
            assert(text[j] == '\n');
        }
    }
    assert(scan_move(text, motif, 0, m) is Hit);
    assert(scan_next(text, motif, 0, m) == (m, m));
    let w1 = window(text, m, m);
    assert(w1 =~= Seq::<char>::empty());
    assert(w1 != motif) by {
        assert(w1.len() != motif.len());
    }
    assert(scan_move(text, motif, m, m) is Miss);
    assert(scan_next(text, motif, m, m) == (m + 2, m + 2 + m));
    let steps = ((p - m - 2) / 2) as nat;
    assert(p == (m + 2) + 2 * steps);
    assert forall|j: int| 0 <= j < steps implies #[trigger] text.subrange(
        (m + 2) + 2 * j,
        (m + 2) + 2 * j + m,
    ) != motif by {
        let q = (m + 2) + 2 * j;
        assert((q - m) % 2 == 0);
        assert(text.subrange(q, q + m) != motif);
    }
    assert(fuel >= 2);
    let run1 = scan_run(text, motif, m, m, (fuel - 1) as nat);
    let run2 = scan_run(text, motif, m + 2, m + 2 + m, (fuel - 2) as nat);
    lemma_line_walk(text, motif, m + 2, steps, (fuel - 2) as nat);
    assert(run1 == run2);
    assert(scan_run(text, motif, 0, m, fuel) == Some(seq![(0int, m)] + run1.unwrap()));
}

} // verus!
