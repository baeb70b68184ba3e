//! Recognition of inline color-switch markers inside an art template.
//!
//! A marker is the token `${c<digits>}` with one or more decimal digits.
//! Scanning a template left to right yields the digit sequence of each marker
//! in order, and the text chunks between markers (one more chunk than there
//! are markers: the chunk before the first marker, one between each pair of
//! consecutive markers, and the chunk after the last).

use vstd::prelude::*;
use vstd::string::StrSliceExecFns;
use vstd::string::StringExecFns;
use crate::TranscodeError;

verus! {

/// True for a decimal digit character.
pub open spec fn is_digit(c: char) -> bool {
    48 <= c as u32 && c as u32 <= 57
}

/// The value of a decimal digit character.
pub open spec fn digit_val(c: char) -> nat {
    (c as u32 - 48) as nat
}

/// The value of a sequence of decimal digit characters.
pub open spec fn dec_val(d: Seq<char>) -> nat
    decreases d.len(),
{
    if d.len() == 0 {
        0
    } else {
        dec_val(d.drop_last()) * 10 + digit_val(d.last())
    }
}

/// The first position at or after `j` that does not hold a digit.
pub open spec fn digit_run_end(s: Seq<char>, j: int) -> int
    decreases s.len() - j,
{
    if j < 0 || j >= s.len() {
        j
    } else if is_digit(s[j]) {
        digit_run_end(s, j + 1)
    } else {
        j
    }
}

/// True when a marker `${c<digits>}` with at least one digit starts at `i`.
pub open spec fn is_marker_at(s: Seq<char>, i: int) -> bool {
    let e = digit_run_end(s, i + 3);
    &&& 0 <= i
    &&& s[i] == '$'
    &&& s[i + 1] == '{'
    &&& s[i + 2] == 'c'
    &&& e > i + 3
    &&& e < s.len()
    &&& s[e] == '}'
}

/// The digit characters of the marker starting at `i`.
pub open spec fn marker_digits(s: Seq<char>, i: int) -> Seq<char> {
    s.subrange(i + 3, digit_run_end(s, i + 3))
}

/// The whole length of the marker starting at `i`, closing brace included.
pub open spec fn marker_len(s: Seq<char>, i: int) -> int {
    digit_run_end(s, i + 3) + 1 - i
}

/// Scans the suffix of `s` that starts at `i`: the first component holds the
/// digit sequences of the markers in order, the second the text chunks
/// between them (always one chunk more than there are markers).
pub open spec fn scan_from(s: Seq<char>, i: int) -> (Seq<Seq<char>>, Seq<Seq<char>>)
    decreases s.len() - i,
{
    if i < 0 || i >= s.len() {
        (Seq::empty(), seq![Seq::<char>::empty()])
    } else if is_marker_at(s, i) {
        let rest = scan_from(s, i + marker_len(s, i));
        (seq![marker_digits(s, i)] + rest.0, seq![Seq::<char>::empty()] + rest.1)
    } else {
        let rest = scan_from(s, i + 1);
        (rest.0, seq![seq![s[i]] + rest.1[0]] + rest.1.drop_first())
    }
}

/// The digit sequences of all markers of `s`, in scan order.
pub open spec fn scan_digit_seqs(s: Seq<char>) -> Seq<Seq<char>> {
    scan_from(s, 0).0
}

/// The chunks of `s` split at its markers, markers removed.
pub open spec fn scan_chunks(s: Seq<char>) -> Seq<Seq<char>> {
    scan_from(s, 0).1
}

/// True when every marker's digit sequence fits in `u8`.
pub open spec fn well_marked(s: Seq<char>) -> bool {
    forall|k: int|
        0 <= k < scan_digit_seqs(s).len() ==> dec_val(#[trigger] scan_digit_seqs(s)[k]) <= 255
}

/// The text of a marker with digit sequence `d`.
pub open spec fn marker_text(d: Seq<char>) -> Seq<char> {
    seq!['$', '{', 'c'] + d + seq!['}']
}

/// The markers with digit sequences `ds` re-inserted before the chunks `cs`,
/// in order: marker, chunk, marker, chunk, ...
pub open spec fn reassemble(ds: Seq<Seq<char>>, cs: Seq<Seq<char>>) -> Seq<char>
    decreases ds.len(),
{
    if ds.len() == 0 {
        Seq::empty()
    } else {
        marker_text(ds[0]) + cs[0] + reassemble(ds.drop_first(), cs.drop_first())
    }
}

proof fn lemma_scan_from_shape(s: Seq<char>, i: int)
    ensures
        scan_from(s, i).1.len() == scan_from(s, i).0.len() + 1,
    decreases s.len() - i,
{
    if i < 0 || i >= s.len() {
    } else if is_marker_at(s, i) {
        lemma_scan_from_shape(s, i + marker_len(s, i));
    } else {
        lemma_scan_from_shape(s, i + 1);
    }
}

proof fn lemma_scan_from_round_trip(s: Seq<char>, i: int)
    requires
        0 <= i <= s.len(),
    ensures
        s.skip(i) == scan_from(s, i).1[0] + reassemble(
            scan_from(s, i).0,
            scan_from(s, i).1.drop_first(),
        ),
    decreases s.len() - i,
{
    if i >= s.len() {
        assert(s.skip(i) =~= Seq::<char>::empty());
        assert(scan_from(s, i).1[0] + reassemble(
            scan_from(s, i).0,
            scan_from(s, i).1.drop_first(),
        ) =~= Seq::<char>::empty());
    } else if is_marker_at(s, i) {
        let e = digit_run_end(s, i + 3);
        let ml = marker_len(s, i);
        lemma_digit_run_digits(s, i + 3);
        lemma_scan_from_shape(s, i + ml);
        lemma_scan_from_round_trip(s, i + ml);
        let d = marker_digits(s, i);
        let rest = scan_from(s, i + ml);
        assert(s.subrange(i, i + ml) =~= marker_text(d));
        assert(s.skip(i) =~= s.subrange(i, i + ml) + s.skip(i + ml));
        let ds = seq![d] + rest.0;
        let cs = seq![Seq::<char>::empty()] + rest.1;
        assert(scan_from(s, i).0 == ds);
        assert(scan_from(s, i).1 == cs);
        assert(ds.drop_first() =~= rest.0);
        assert(cs.drop_first()[0] == rest.1[0]);
        assert(cs.drop_first().drop_first() =~= rest.1.drop_first());
        assert(reassemble(ds, cs.drop_first()) == marker_text(d) + rest.1[0] + reassemble(
            rest.0,
            rest.1.drop_first(),
        ));
        assert(s.skip(i) =~= cs[0] + reassemble(ds, cs.drop_first()));
    } else {
        lemma_scan_from_shape(s, i + 1);
        lemma_scan_from_round_trip(s, i + 1);
        let rest = scan_from(s, i + 1);
        let cs = seq![seq![s[i]] + rest.1[0]] + rest.1.drop_first();
        assert(scan_from(s, i).0 == rest.0);
        assert(scan_from(s, i).1 == cs);
        assert(cs.drop_first() =~= rest.1.drop_first());
        assert(s.skip(i) =~= seq![s[i]] + s.skip(i + 1));
        assert(s.skip(i) =~= cs[0] + reassemble(rest.0, rest.1.drop_first()));
    }
}

/// Splitting a template at its markers yields one chunk more than there are
/// markers, and re-inserting each marker's text before the chunk that
/// follows it reconstructs the template minus its preamble chunk.
pub proof fn lemma_template_round_trip(s: Seq<char>)
    ensures
        scan_chunks(s).len() == scan_digit_seqs(s).len() + 1,
        s == scan_chunks(s)[0] + reassemble(scan_digit_seqs(s), scan_chunks(s).drop_first()),
{
    lemma_scan_from_shape(s, 0);
    lemma_scan_from_round_trip(s, 0);
    assert(s.skip(0) =~= s);
}

proof fn lemma_digit_run_digits(s: Seq<char>, j: int)
    requires
        0 <= j,
    ensures
        forall|k: int| j <= k < digit_run_end(s, j) ==> is_digit(s[k]),
    decreases s.len() - j,
{
    if j >= s.len() {
    } else if is_digit(s[j]) {
        lemma_digit_run_digits(s, j + 1);
        assert forall|k: int| j <= k < digit_run_end(s, j) implies is_digit(s[k]) by {
            if k > j {
                assert(digit_run_end(s, j) == digit_run_end(s, j + 1));
            }
        }
    } else {
    }
}

proof fn lemma_dec_val_take_le(d: Seq<char>, m: int)
    requires
        0 <= m <= d.len(),
    ensures
        dec_val(d.take(m)) <= dec_val(d),
    decreases d.len() - m,
{
    if m == d.len() {
        assert(d.take(m) =~= d);
    } else {
        assert(d.take(m + 1).drop_last() =~= d.take(m));
        assert(d.take(m + 1).last() == d[m]);
        assert(dec_val(d.take(m + 1)) == dec_val(d.take(m)) * 10 + digit_val(d[m]));
        lemma_dec_val_take_le(d, m + 1);
    }
}

/// Parses the digit characters of `s` in `[from, to)` as a `u8`, reporting
/// overflow past 255.
fn parse_marker_value(s: &str, from: usize, to: usize) -> (r: Option<u8>)
    requires
        from <= to <= s@.len(),
        forall|k: int| from <= k < to ==> is_digit(s@[k]),
    ensures
        r is Some <==> dec_val(s@.subrange(from as int, to as int)) <= 255,
        r is Some ==> r->0 as nat == dec_val(s@.subrange(from as int, to as int)),
{
    let ghost d = s@.subrange(from as int, to as int);
    let mut acc: u32 = 0;
    let mut k: usize = from;
    proof {
        assert(d.take(0) =~= Seq::<char>::empty());
    }
    while k < to
        invariant
            from <= k <= to,
            to <= s@.len(),
            forall|t: int| from <= t < to ==> is_digit(s@[t]),
            d == s@.subrange(from as int, to as int),
            acc <= 255,
            acc as nat == dec_val(d.take(k - from)),
        decreases to - k,
    {
        let c = s.get_char(k);
        proof {
            assert(is_digit(s@[k as int]));
            assert(d[k - from] == s@[k as int]);
            assert(d.take(k - from + 1).drop_last() =~= d.take(k - from));
            assert(d.take(k - from + 1).last() == d[k - from]);
        }
        let v: u32 = (c as u32) - 48;
        let acc2: u32 = acc * 10 + v;
        if acc2 > 255 {
            proof {
                lemma_dec_val_take_le(d, k - from + 1);
            }
            return None;
        }
        acc = acc2;
        k = k + 1;
    }
    proof {
        assert(d.take(to - from) =~= d);
    }
    Some(acc as u8)
}

/// Looks for a marker starting at position `i`, returning the exclusive end
/// of its digit run (the position of the closing brace) when one is there.
fn find_marker_at(s: &str, i: usize, n: usize) -> (res: Option<usize>)
    requires
        n == s@.len(),
        i < n,
    ensures
        res is Some <==> is_marker_at(s@, i as int),
        res is Some ==> res->0 as int == digit_run_end(s@, i as int + 3) && i + 3 < res->0
            && res->0 < n,
{
    let c0 = s.get_char(i);
    if c0 != '$' {
        return None;
    }
    if n - i <= 3 {
        proof {
            assert(digit_run_end(s@, i as int + 3) == i as int + 3);
        }
        return None;
    }
    let c1 = s.get_char(i + 1);
    let c2 = s.get_char(i + 2);
    if c1 != '{' || c2 != 'c' {
        return None;
    }
    let mut j: usize = i + 3;
    while j < n
        invariant
            i + 3 <= j <= n,
            n == s@.len(),
            digit_run_end(s@, i as int + 3) == digit_run_end(s@, j as int),
        ensures
            i + 3 <= j <= n,
            n == s@.len(),
            digit_run_end(s@, i as int + 3) == j as int,
        decreases n - j,
    {
        let cj = s.get_char(j);
        if 48 <= (cj as u32) && (cj as u32) <= 57 {
            proof {
                assert(is_digit(s@[j as int]));
                assert(digit_run_end(s@, j as int) == digit_run_end(s@, j as int + 1));
            }
            j = j + 1;
        } else {
            proof {
                assert(!is_digit(s@[j as int]));
                assert(digit_run_end(s@, j as int) == j as int);
            }
            break ;
        }
    }
    if j == i + 3 {
        return None;
    }
    if j == n {
        return None;
    }
    let cj = s.get_char(j);
    if cj != '}' {
        return None;
    }
    Some(j)
}

/// Scans a template: reports each marker's parsed palette index in order and
/// the text chunks around the markers, or the marker whose digits overflow.
pub fn scan_template(s: &str) -> (r: Result<(Vec<u8>, Vec<String>), TranscodeError>)
    ensures
        r is Ok <==> well_marked(s@),
        r is Err ==> r == Result::<(Vec<u8>, Vec<String>), TranscodeError>::Err(
            TranscodeError::MalformedMarker,
        ),
        r is Ok ==> ({
            let (idx, chunks) = r->Ok_0;
            &&& idx@.len() == scan_digit_seqs(s@).len()
            &&& forall|k: int|
                0 <= k < idx@.len() ==> idx@[k] as nat == dec_val(scan_digit_seqs(s@)[k])
            &&& chunks@.len() == scan_chunks(s@).len()
            &&& forall|k: int| 0 <= k < chunks@.len() ==> chunks@[k]@ == scan_chunks(s@)[k]
        }),
{
    let n: usize = s.unicode_len();
    let mut idx: Vec<u8> = Vec::new();
    let mut chunks: Vec<String> = Vec::new();
    let mut cur: String = String::new();
    let mut i: usize = 0;
    proof {
        lemma_scan_from_shape(s@, 0);
        assert(scan_digit_seqs(s@).skip(0) =~= scan_from(s@, 0).0);
        assert(scan_chunks(s@).skip(1) =~= scan_from(s@, 0).1.drop_first());
        assert(cur@ + scan_from(s@, 0).1[0] =~= scan_from(s@, 0).1[0]);
    }
    while i < n
        invariant
            i <= n,
            n == s@.len(),
            scan_from(s@, i as int).1.len() == scan_from(s@, i as int).0.len() + 1,
            scan_digit_seqs(s@).len() == idx@.len() + scan_from(s@, i as int).0.len(),
            scan_digit_seqs(s@).skip(idx@.len() as int) == scan_from(s@, i as int).0,
            forall|k: int|
                0 <= k < idx@.len() ==> idx@[k] as nat == dec_val(
                    #[trigger] scan_digit_seqs(s@)[k],
                ) && dec_val(scan_digit_seqs(s@)[k]) <= 255,
            scan_chunks(s@).len() == chunks@.len() + scan_from(s@, i as int).1.len(),
            forall|k: int| 0 <= k < chunks@.len() ==> (#[trigger] chunks@[k])@ == scan_chunks(
                s@,
            )[k],
            scan_chunks(s@)[chunks@.len() as int] == cur@ + scan_from(s@, i as int).1[0],
            scan_chunks(s@).skip(chunks@.len() as int + 1) == scan_from(s@, i as int).1.drop_first(),
        decreases n - i,
    {
        let found = find_marker_at(s, i, n);
        match found {
            Some(j) => {
                proof {
                    lemma_digit_run_digits(s@, i as int + 3);
                    assert(is_marker_at(s@, i as int));
                    assert(marker_len(s@, i as int) == j + 1 - i);
                    assert(scan_from(s@, i as int).0 == seq![marker_digits(s@, i as int)]
                        + scan_from(s@, j as int + 1).0);
                    assert(scan_from(s@, i as int).1 == seq![Seq::<char>::empty()] + scan_from(
                        s@,
                        j as int + 1,
                    ).1);
                    assert(marker_digits(s@, i as int) =~= s@.subrange(i as int + 3, j as int));
                }
                let v_opt = parse_marker_value(s, i + 3, j);
                match v_opt {
                    None => {
                        proof {
                            let kk = idx@.len() as int;
                            assert(scan_digit_seqs(s@)[kk] == scan_from(s@, i as int).0[0]);
                            assert(scan_from(s@, i as int).0[0] == marker_digits(s@, i as int));
                            assert(dec_val(scan_digit_seqs(s@)[kk]) > 255);
                        }
                        return Err(TranscodeError::MalformedMarker);
                    },
                    Some(v) => {
                        let ghost idx_old = idx@;
                        let ghost chunks_old = chunks@;
                        let ghost cur_old = cur@;
                        idx.push(v);
                        chunks.push(cur);
                        cur = String::new();
                        proof {
                            lemma_scan_from_shape(s@, j as int + 1);
                            let full_d = scan_digit_seqs(s@);
                            let full_c = scan_chunks(s@);
                            let next = scan_from(s@, j as int + 1);
                            let here = scan_from(s@, i as int);
                            // one more digit sequence is accounted for
                            assert(full_d.skip(idx_old.len() as int) == here.0);
                            assert(full_d[idx_old.len() as int] == here.0[0]);
                            assert(full_d.skip(idx_old.len() as int).drop_first() =~= full_d.skip(
                                idx_old.len() as int + 1,
                            ));
                            assert(here.0.drop_first() =~= next.0);
                            assert(full_d.skip(idx@.len() as int) == next.0);
                            // the chunk in progress is complete
                            assert(here.1[0] == Seq::<char>::empty());
                            assert(cur_old + here.1[0] =~= cur_old);
                            assert(full_c[chunks_old.len() as int] == cur_old);
                            // the rest of the chunks shift by one
                            assert(here.1.drop_first() =~= next.1);
                            assert(full_c.skip(chunks_old.len() as int + 1) == next.1);
                            assert(full_c[chunks@.len() as int] == next.1[0]);
                            assert(cur@ + next.1[0] =~= next.1[0]);
                            assert(full_c.skip(chunks@.len() as int + 1) =~= full_c.skip(
                                chunks_old.len() as int + 1,
                            ).drop_first());
                            assert(full_c.skip(chunks@.len() as int + 1) == next.1.drop_first());
                        }
                        i = j + 1;
                    },
                }
            },
            None => {
                let piece = s.substring_char(i, i + 1);
                let ghost cur_old = cur@;
                cur.append(piece);
                proof {
                    lemma_scan_from_shape(s@, i as int + 1);
                    let next = scan_from(s@, i as int + 1);
                    let here = scan_from(s@, i as int);
                    assert(here.0 == next.0);
                    assert(here.1 == seq![seq![s@[i as int]] + next.1[0]] + next.1.drop_first());
                    assert(here.1[0] == seq![s@[i as int]] + next.1[0]);
                    assert(piece@ =~= seq![s@[i as int]]);
                    assert(cur@ =~= cur_old + seq![s@[i as int]]);
                    assert(cur_old + here.1[0] =~= cur@ + next.1[0]);
                    assert(here.1.drop_first() =~= next.1.drop_first());
                }
                i = i + 1;
            },
        }
    }
    chunks.push(cur);
    proof {
        let fin = scan_from(s@, n as int);
        assert(fin.0 =~= Seq::<Seq<char>>::empty());
        assert(fin.1 =~= seq![Seq::<char>::empty()]);
        assert(scan_digit_seqs(s@).skip(idx@.len() as int).len() == 0);
        assert(scan_digit_seqs(s@).len() == idx@.len());
        assert(chunks@.len() == scan_chunks(s@).len());
        assert(chunks@.last()@ =~= scan_chunks(s@)[chunks@.len() - 1]);
        assert(well_marked(s@));
    }
    Ok((idx, chunks))
}

} // verus!
