//! Turning stage-label codes such as `5_1;5_2` into a human-readable
//! trail description.  A label names a trail by a one-digit code and a
//! stage number, separated by `_`; labels are separated by `;`.

use vstd::prelude::*;

verus! {

/// Why a stage-label string was rejected.
#[derive(Clone, Copy, Debug, PartialEq, Eq)]
pub enum StageCodeError {
    /// A label's trail code maps to no known trail.
    UnknownCode,
    /// A label carries no `_`-separated stage number.
    MissingNumber,
}

/// First position of `c` in `s` at or after `k` (or the length).
pub open spec fn first_idx_from(s: Seq<char>, c: char, k: int) -> int
    decreases s.len() - k,
{
    if k < 0 || k >= s.len() {
        s.len() as int
    } else if s[k] == c {
        k
    } else {
        first_idx_from(s, c, k + 1)
    }
}

/// The `;`-separated pieces of `s`, empties included.
pub open spec fn split_semi(s: Seq<char>) -> Seq<Seq<char>>
    decreases s.len(),
{
    let i = first_idx_from(s, ';', 0);
    if 0 <= i && i < s.len() {
        seq![s.take(i)] + split_semi(s.skip(i + 1))
    } else {
        seq![s]
    }
}

/// Where a label's trail code ends.
pub open spec fn code_end(t: Seq<char>) -> int {
    first_idx_from(t, '_', 0)
}

/// The label names one of the five known trails: a single digit 1 to 5
/// before the first `_`.
pub open spec fn known_code(t: Seq<char>) -> bool {
    code_end(t) == 1 && 49 <= t[0] as u32 <= 53
}

/// A label is acceptable when empty (skipped), or carries a stage number
/// and a known trail code.
pub open spec fn token_valid(t: Seq<char>) -> bool {
    t.len() == 0 || (code_end(t) < t.len() && known_code(t))
}

/// The display name of trail `c` (1 to 5).
pub open spec fn trail_name(c: int) -> Seq<char> {
    if c == 1 {
        "Kust-kustleden"@
    } else if c == 2 {
        "Nord-sydleden"@
    } else if c == 3 {
        "Ås-åsleden"@
    } else if c == 4 {
        "Österlenleden"@
    } else {
        "Öresundsleden"@
    }
}

fn trail_name_str(c: usize) -> (r: &'static str)
    requires
        1 <= c <= 5,
    ensures
        r@ == trail_name(c as int),
{
    proof {
        reveal_strlit("Kust-kustleden");
        reveal_strlit("Nord-sydleden");
        reveal_strlit("Ås-åsleden");
        reveal_strlit("Österlenleden");
        reveal_strlit("Öresundsleden");
    }
    match c {
        1 => "Kust-kustleden",
        2 => "Nord-sydleden",
        3 => "Ås-åsleden",
        4 => "Österlenleden",
        _ => "Öresundsleden",
    }
}

/// First position of `c` in `t` at or after `from`, by scan.
fn find_char(t: &str, c: char, from: usize) -> (i: usize)
    requires
        from <= t@.len(),
    ensures
        i == first_idx_from(t@, c, from as int),
        from <= i <= t@.len(),
        i < t@.len() ==> t@[i as int] == c,
{
    let n = t.unicode_len();
    let mut k = from;
    while k < n
        invariant
            n == t@.len(),
            from <= k <= n,
            first_idx_from(t@, c, from as int) == first_idx_from(t@, c, k as int),
        decreases n - k,
    {
        if t.get_char(k) == c {
            return k;
        }
        k = k + 1;
    }
    k
}

/// Split `s` at every `;`.
fn split_tokens(s: &str) -> (toks: Vec<String>)
    ensures
        toks@.len() == split_semi(s@).len(),
        forall|i: int| 0 <= i < toks@.len() ==> (#[trigger] toks@[i])@ == split_semi(s@)[i],
{
    let n = s.unicode_len();
    let mut toks: Vec<String> = Vec::new();
    let mut rest: usize = 0;
    proof {
        assert(s@.skip(0) =~= s@);
    }
    loop
        invariant
            n == s@.len(),
            rest <= n,
            split_semi(s@).len() == toks@.len() + split_semi(s@.skip(rest as int)).len(),
            forall|i: int| 0 <= i < toks@.len() ==> (#[trigger] toks@[i])@ == split_semi(s@)[i],
            forall|j: int|
                0 <= j < split_semi(s@.skip(rest as int)).len() ==> split_semi(s@)[toks@.len() + j]
                    == #[trigger] split_semi(s@.skip(rest as int))[j],
        ensures
            toks@.len() == split_semi(s@).len(),
            forall|i: int| 0 <= i < toks@.len() ==> (#[trigger] toks@[i])@ == split_semi(s@)[i],
        decreases n - rest + 1,
    {
        let i = find_char(s, ';', rest);
        let piece = s.substring_char(rest, i).to_owned();
        let ghost su = s@.skip(rest as int);
        let ghost pre_toks = toks@;
        proof {
            lemma_first_idx_shift(s@, ';', rest as int, i as int);
            assert(first_idx_from(su, ';', 0) == i - rest);
            assert(su.take(i - rest) =~= s@.subrange(rest as int, i as int));
            if (i as int) < n as int {
                assert(su.skip(i - rest + 1) =~= s@.skip(i as int + 1));
                assert(split_semi(su) == seq![su.take(i - rest)] + split_semi(
                    su.skip(i - rest + 1),
                ));
                assert(split_semi(su)[0] == su.take(i - rest));
            } else {
                assert(first_idx_from(su, ';', 0) == su.len());
                assert(split_semi(su) == seq![su]);
                assert(su =~= s@.subrange(rest as int, i as int));
                assert(split_semi(su)[0] == su);
            }
            assert(split_semi(su)[0] == piece@);
            assert(split_semi(s@)[pre_toks.len() as int] == split_semi(su)[0]);
        }
        toks.push(piece);
        proof {
            assert forall|i2: int|
                0 <= i2 < toks@.len() implies (#[trigger] toks@[i2])@ == split_semi(s@)[i2] by {
                if i2 < pre_toks.len() {
                    assert(toks@[i2] == pre_toks[i2]);
                }
            }
        }
        if i >= n {
            proof {
                assert(split_semi(su).len() == 1);
            }
            return toks;
        }
        let ghost or = rest as int;
        rest = i + 1;
        proof {
            let su2 = s@.skip(i as int + 1);
            assert(s@.skip(rest as int) == su2);
            assert(su.skip(i - or + 1) =~= su2);
            assert(split_semi(su) == seq![su.take(i - or)] + split_semi(su.skip(i - or + 1)));
            assert(split_semi(su).len() == 1 + split_semi(su2).len());
            assert forall|j: int|
                0 <= j < split_semi(su2).len() implies split_semi(s@)[toks@.len() + j]
                == #[trigger] split_semi(su2)[j] by {
                assert(split_semi(su)[1 + j] == split_semi(su.skip(i - or + 1))[j]);
                assert(split_semi(s@)[(pre_toks.len() as int) + (1 + j)] == split_semi(su)[1 + j]);
            }
        }
    }
}

proof fn lemma_first_idx_shift(s: Seq<char>, c: char, base: int, i: int)
    requires
        0 <= base <= s.len(),
        i == first_idx_from(s, c, base),
    ensures
        first_idx_from(s.skip(base), c, 0) == i - base,
        base <= i <= s.len(),
        i < s.len() ==> s[i] == c,
        forall|j: int| base <= j < i ==> s[j] != c,
{
    lemma_first_idx_ge(s, c, base);
    let su = s.skip(base);
    lemma_first_idx_ge(su, c, 0);
    let k = first_idx_from(su, c, 0);
    assert forall|j: int| 0 <= j < k implies su[j] != c by {
        lemma_first_idx_before(su, c, 0, j);
    }
    assert forall|j: int| base <= j < i implies s[j] != c by {
        lemma_first_idx_before(s, c, base, j);
    }
    if k < su.len() {
        assert(su[k] == c);
        assert(s[base + k] == c);
    }
    if i < s.len() {
        assert(s[i] == c);
        assert(su[i - base] == c);
    }
    if k + base < i {
        assert(s[base + k] != c);
    }
    if i - base < k {
        assert(su[i - base] != c);
    }
}

proof fn lemma_first_idx_ge(s: Seq<char>, c: char, k: int)
    requires
        0 <= k <= s.len(),
    ensures
        k <= first_idx_from(s, c, k) <= s.len(),
        first_idx_from(s, c, k) < s.len() ==> s[first_idx_from(s, c, k)] == c,
    decreases s.len() - k,
{
    if k < s.len() && s[k] != c {
        lemma_first_idx_ge(s, c, k + 1);
    }
}

proof fn lemma_first_idx_before(s: Seq<char>, c: char, k: int, j: int)
    requires
        0 <= k <= s.len(),
        k <= j < first_idx_from(s, c, k),
    ensures
        s[j] != c,
    decreases j - k,
{
    lemma_first_idx_ge(s, c, k);
    if j > k {
        lemma_first_idx_before(s, c, k + 1, j);
    }
}

/// Code-point order on character sequences.
pub open spec fn lex_le(a: Seq<char>, b: Seq<char>) -> bool
    decreases a.len(),
{
    if a.len() == 0 {
        true
    } else if b.len() == 0 {
        false
    } else if (a[0] as u32) < (b[0] as u32) {
        true
    } else if (a[0] as u32) > (b[0] as u32) {
        false
    } else {
        lex_le(a.drop_first(), b.drop_first())
    }
}

/// Whether `a` orders at or before `b`, by code points.
fn str_le(a: &str, b: &str) -> (r: bool)
    ensures
        r == lex_le(a@, b@),
{
    let na = a.unicode_len();
    let nb = b.unicode_len();
    let mut k: usize = 0;
    proof {
        assert(a@.skip(0) =~= a@);
        assert(b@.skip(0) =~= b@);
    }
    while k < na && k < nb
        invariant
            na == a@.len(),
            nb == b@.len(),
            k <= na && k <= nb,
            lex_le(a@, b@) == lex_le(a@.skip(k as int), b@.skip(k as int)),
        decreases na - k,
    {
        let ca = a.get_char(k) as u32;
        let cb = b.get_char(k) as u32;
        proof {
            assert(a@.skip(k as int)[0] == a@[k as int]);
            assert(b@.skip(k as int)[0] == b@[k as int]);
            assert(a@.skip(k as int).drop_first() =~= a@.skip(k as int + 1));
            assert(b@.skip(k as int).drop_first() =~= b@.skip(k as int + 1));
        }
        if ca < cb {
            return true;
        }
        if ca > cb {
            return false;
        }
        k = k + 1;
    }
    proof {
        if k >= na {
            assert(a@.skip(k as int).len() == 0);
        } else {
            assert(b@.skip(k as int).len() == 0);
            assert(a@.skip(k as int).len() > 0);
        }
    }
    na <= nb
}

/// Insert `x` into a sorted list, after every entry at or before it.
pub open spec fn insert_lex_spec(s: Seq<Seq<char>>, x: Seq<char>) -> Seq<Seq<char>>
    decreases s.len(),
{
    if s.len() > 0 && lex_le(s[0], x) {
        seq![s[0]] + insert_lex_spec(s.drop_first(), x)
    } else {
        seq![x] + s
    }
}

/// Sort by code-point order, by repeated insertion.
pub open spec fn sort_lex(s: Seq<Seq<char>>) -> Seq<Seq<char>>
    decreases s.len(),
{
    if s.len() == 0 {
        Seq::empty()
    } else {
        insert_lex_spec(sort_lex(s.drop_last()), s.last())
    }
}

proof fn lemma_insert_lex_len(s: Seq<Seq<char>>, x: Seq<char>)
    ensures
        insert_lex_spec(s, x).len() == s.len() + 1,
    decreases s.len(),
{
    if s.len() > 0 && lex_le(s[0], x) {
        lemma_insert_lex_len(s.drop_first(), x);
    }
}

proof fn lemma_sort_lex_len(s: Seq<Seq<char>>)
    ensures
        sort_lex(s).len() == s.len(),
    decreases s.len(),
{
    if s.len() > 0 {
        lemma_sort_lex_len(s.drop_last());
        lemma_insert_lex_len(sort_lex(s.drop_last()), s.last());
    }
}

proof fn lemma_insert_lex_at(s: Seq<Seq<char>>, x: Seq<char>, pos: int)
    requires
        0 <= pos <= s.len(),
        forall|j: int| 0 <= j < pos ==> lex_le(#[trigger] s[j], x),
        pos == s.len() || !lex_le(s[pos], x),
    ensures
        insert_lex_spec(s, x) == s.take(pos) + seq![x] + s.skip(pos),
    decreases pos,
{
    if pos == 0 {
        assert(seq![x] + s =~= s.take(0) + seq![x] + s.skip(0));
    } else {
        assert(lex_le(s[0], x));
        assert forall|j: int| 0 <= j < pos - 1 implies lex_le(#[trigger] s.drop_first()[j], x) by {
            assert(s.drop_first()[j] == s[j + 1]);
        }
        assert(pos - 1 == s.drop_first().len() || !lex_le(s.drop_first()[pos - 1], x)) by {
            if pos < s.len() {
                assert(s.drop_first()[pos - 1] == s[pos]);
            }
        }
        lemma_insert_lex_at(s.drop_first(), x, pos - 1);
        assert(seq![s[0]] + (s.drop_first().take(pos - 1) + seq![x] + s.drop_first().skip(pos - 1))
            =~= s.take(pos) + seq![x] + s.skip(pos));
    }
}

/// The character sequences of a string list.
pub open spec fn views_of(s: Seq<String>) -> Seq<Seq<char>> {
    Seq::new(s.len(), |i: int| s[i]@)
}

/// Insert `x` into the sorted list `v`, keeping the order.
fn insert_lex(v: &mut Vec<String>, x: String)
    ensures
        views_of(final(v)@) == insert_lex_spec(views_of(old(v)@), x@),
{
    let mut pos: usize = 0;
    loop
        invariant
            pos <= v@.len(),
            v@ == old(v)@,
            forall|j: int| 0 <= j < pos ==> lex_le(#[trigger] views_of(v@)[j], x@),
        ensures
            pos <= v@.len(),
            v@ == old(v)@,
            forall|j: int| 0 <= j < pos ==> lex_le(#[trigger] views_of(v@)[j], x@),
            pos == v@.len() || !lex_le(views_of(v@)[pos as int], x@),
        decreases v@.len() - pos,
    {
        if pos >= v.len() {
            break ;
        }
        if !str_le(&v[pos], x.as_str()) {
            proof {
                assert(views_of(v@)[pos as int] == v@[pos as int]@);
            }
            break ;
        }
        proof {
            assert(views_of(v@)[pos as int] == v@[pos as int]@);
        }
        pos = pos + 1;
    }
    proof {
        lemma_insert_lex_at(views_of(v@), x@, pos as int);
    }
    let ghost pre = v@;
    v.insert(pos, x);
    proof {
        assert forall|i: int|
            0 <= i < views_of(v@).len() implies views_of(v@)[i] == (views_of(pre).take(pos as int)
            + seq![x@] + views_of(pre).skip(pos as int))[i] by {
            if i < pos {
                assert(v@[i] == pre[i]);
            } else if i == pos {
                assert(v@[i] == x);
            } else {
                assert(v@[i] == pre[i - 1]);
            }
        }
        assert(views_of(v@) =~= views_of(pre).take(pos as int) + seq![x@] + views_of(pre).skip(
            pos as int,
        ));
    }
}

/// The stage-number piece of a label: between its first `_` and the
/// next `_` or the end.
pub open spec fn num_piece(t: Seq<char>) -> Seq<char> {
    t.subrange(2, first_idx_from(t, '_', 2))
}

/// The stage numbers of trail `c`'s labels, in label order.
pub open spec fn nums_of(pieces: Seq<Seq<char>>, c: int) -> Seq<Seq<char>>
    decreases pieces.len(),
{
    if pieces.len() == 0 {
        Seq::empty()
    } else {
        nums_of(pieces.drop_last(), c) + if pieces.last().len() > 0 && known_code(pieces.last())
            && pieces.last()[0] as u32 == 48 + c {
            seq![num_piece(pieces.last())]
        } else {
            Seq::empty()
        }
    }
}

proof fn lemma_nums_step(pieces: Seq<Seq<char>>, c: int, i: int)
    requires
        0 <= i < pieces.len(),
    ensures
        nums_of(pieces.take(i + 1), c) == nums_of(pieces.take(i), c) + if pieces[i].len() > 0
            && known_code(pieces[i]) && pieces[i][0] as u32 == 48 + c {
            seq![num_piece(pieces[i])]
        } else {
            Seq::empty()
        },
{
    assert(pieces.take(i + 1).drop_last() =~= pieces.take(i));
    assert(pieces.take(i + 1).last() == pieces[i]);
}

/// Join with a comma and a space.
pub open spec fn join_comma(s: Seq<Seq<char>>) -> Seq<char>
    decreases s.len(),
{
    if s.len() == 0 {
        Seq::empty()
    } else if s.len() == 1 {
        s[0]
    } else {
        join_comma(s.drop_last()) + ", "@ + s.last()
    }
}

proof fn lemma_join_push(s: Seq<Seq<char>>, y: Seq<char>)
    ensures
        join_comma(s.push(y)) == join_comma(s) + (if s.len() > 0 {
            ", "@
        } else {
            Seq::<char>::empty()
        }) + y,
{
    assert(s.push(y).drop_last() =~= s);
    assert(s.push(y).last() == y);
    if s.len() == 0 {
        assert(s.push(y)[0] == y);
        assert(Seq::<char>::empty() + Seq::<char>::empty() + y =~= y);
    }
}

/// Trail `c`'s line of the report: its name, then its stage numbers in
/// code-point order.
pub open spec fn block_of(s: Seq<char>, c: int) -> Seq<char> {
    trail_name(c) + " etapp "@ + join_comma(sort_lex(nums_of(split_semi(s), c)))
}

/// The report lines of the trails that occur, in trail order.
pub open spec fn blocks_upto(s: Seq<char>, c: int) -> Seq<Seq<char>>
    decreases c,
{
    if c <= 1 {
        Seq::empty()
    } else {
        blocks_upto(s, c - 1) + if nums_of(split_semi(s), c - 1).len() > 0 {
            seq![block_of(s, c - 1)]
        } else {
            Seq::empty()
        }
    }
}

/// The whole rendering of a valid stage-label string.
pub open spec fn render(s: Seq<char>) -> Seq<char> {
    join_comma(blocks_upto(s, 6))
}

/// Expand a stage-label string such as `5_1;5_2` into trail names with
/// their stage numbers.  Fails exactly when some label lacks a stage
/// number or names an unknown trail; otherwise the result is the
/// rendering fixed by `render`: one comma-joined line per occurring
/// trail, its stage numbers sorted by code points.
pub fn fix_etapp(s: &str) -> (r: Result<String, StageCodeError>)
    ensures
        r is Ok <==> (forall|i: int|
            0 <= i < split_semi(s@).len() ==> token_valid(#[trigger] split_semi(s@)[i])),
        r is Ok ==> (r->Ok_0)@ == render(s@),
        r == Result::<String, StageCodeError>::Err(StageCodeError::MissingNumber) ==> exists|i: int|
            0 <= i < split_semi(s@).len() && (#[trigger] split_semi(s@)[i]).len() > 0 && code_end(
                split_semi(s@)[i],
            ) == split_semi(s@)[i].len(),
        r == Result::<String, StageCodeError>::Err(StageCodeError::UnknownCode) ==> exists|i: int|
            0 <= i < split_semi(s@).len() && (#[trigger] split_semi(s@)[i]).len() > 0 && code_end(
                split_semi(s@)[i],
            ) < split_semi(s@)[i].len() && !known_code(split_semi(s@)[i]),
{
    let ghost pieces = split_semi(s@);
    let toks = split_tokens(s);
    let mut groups: Vec<Vec<String>> = Vec::new();
    let mut gi: usize = 0;
    while gi < 6
        invariant
            groups@.len() == gi,
            gi <= 6,
            forall|c: int| 0 <= c < gi ==> (#[trigger] groups@[c])@.len() == 0,
        decreases 6 - gi,
    {
        groups.push(Vec::new());
        gi = gi + 1;
    }
    proof {
        assert(pieces.take(0) =~= Seq::<Seq<char>>::empty());
        assert forall|c: int|
            1 <= c <= 5 implies views_of((#[trigger] groups@[c])@) == sort_lex(
            nums_of(pieces.take(0), c),
        ) by {
            assert(views_of(groups@[c]@) =~= Seq::<Seq<char>>::empty());
        }
    }
    let mut ti: usize = 0;
    while ti < toks.len()
        invariant
            pieces == split_semi(s@),
            toks@.len() == pieces.len(),
            forall|i: int| 0 <= i < toks@.len() ==> (#[trigger] toks@[i])@ == pieces[i],
            ti <= toks@.len(),
            groups@.len() == 6,
            forall|i: int| 0 <= i < ti ==> token_valid(#[trigger] pieces[i]),
            forall|c: int|
                1 <= c <= 5 ==> views_of((#[trigger] groups@[c])@) == sort_lex(
                    nums_of(pieces.take(ti as int), c),
                ),
        decreases toks@.len() - ti,
    {
        let t = &toks[ti];
        let tn = t.as_str().unicode_len();
        if tn > 0 {
            let us = find_char(t.as_str(), '_', 0);
            proof {
                lemma_first_idx_ge(t@, '_', 0);
            }
            if us >= tn {
                return Err(StageCodeError::MissingNumber);
            }
            let c0 = if us == 1 {
                t.as_str().get_char(0) as u32
            } else {
                0
            };
            if !(us == 1 && 49 <= c0 && c0 <= 53) {
                return Err(StageCodeError::UnknownCode);
            }
            let us2 = find_char(t.as_str(), '_', us + 1);
            let num = t.as_str().substring_char(us + 1, us2).to_owned();
            let cix: usize = (c0 - 48) as usize;
            let ghost pre_groups = groups@;
            let mut grp = groups.remove(cix);
            insert_lex(&mut grp, num);
            groups.insert(cix, grp);
            proof {
                assert(num_piece(pieces[ti as int]) == t@.subrange(2, us2 as int));
                assert(groups@ =~= pre_groups.update(cix as int, groups@[cix as int]));
                assert forall|c: int|
                    1 <= c <= 5 implies views_of((#[trigger] groups@[c])@) == sort_lex(
                    nums_of(pieces.take(ti as int + 1), c),
                ) by {
                    lemma_nums_step(pieces, c, ti as int);
                    let base = nums_of(pieces.take(ti as int), c);
                    if c == cix {
                        let y = num_piece(pieces[ti as int]);
                        assert(nums_of(pieces.take(ti as int + 1), c) =~= base.push(y));
                        assert(base.push(y).drop_last() =~= base);
                        assert(base.push(y).last() == y);
                        assert(sort_lex(base.push(y)) == insert_lex_spec(sort_lex(base), y));
                        assert(views_of(groups@[c]@) == insert_lex_spec(
                            views_of(pre_groups[c]@),
                            num@,
                        ));
                    } else {
                        assert(groups@[c] == pre_groups[c]);
                        assert(!(pieces[ti as int][0] as u32 == 48 + c));
                        assert(nums_of(pieces.take(ti as int + 1), c) =~= base);
                    }
                }
            }
        } else {
            proof {
                assert forall|c: int|
                    1 <= c <= 5 implies views_of((#[trigger] groups@[c])@) == sort_lex(
                    nums_of(pieces.take(ti as int + 1), c),
                ) by {
                    lemma_nums_step(pieces, c, ti as int);
                    assert(nums_of(pieces.take(ti as int + 1), c) =~= nums_of(
                        pieces.take(ti as int),
                        c,
                    ));
                }
            }
        }
        ti = ti + 1;
    }
    proof {
        assert(pieces.take(pieces.len() as int) =~= pieces);
    }
    // Render: trail by trail, stage numbers in order, comma-joined.
    let mut out = String::new();
    let mut first = true;
    let mut c: usize = 1;
    while c < 6
        invariant
            pieces == split_semi(s@),
            groups@.len() == 6,
            1 <= c <= 6,
            forall|c2: int|
                1 <= c2 <= 5 ==> views_of((#[trigger] groups@[c2])@) == sort_lex(
                    nums_of(pieces, c2),
                ),
            out@ == join_comma(blocks_upto(s@, c as int)),
            first == (blocks_upto(s@, c as int).len() == 0),
        decreases 6 - c,
    {
        let grp = &groups[c];
        proof {
            lemma_sort_lex_len(nums_of(pieces, c as int));
            assert(views_of(grp@).len() == grp@.len());
        }
        if grp.len() > 0 {
            let ghost base = blocks_upto(s@, c as int);
            let ghost head = join_comma(base) + (if base.len() > 0 {
                ", "@
            } else {
                Seq::<char>::empty()
            }) + trail_name(c as int) + " etapp "@;
            if !first {
                out.append(", ");
            }
            first = false;
            out.append(trail_name_str(c));
            out.append(" etapp ");
            let ghost nums = views_of(grp@);
            proof {
                assert(nums.take(0) =~= Seq::<Seq<char>>::empty());
                assert(out@ =~= head + join_comma(nums.take(0)));
            }
            let mut k: usize = 0;
            while k < grp.len()
                invariant
                    nums == views_of(grp@),
                    k <= grp@.len(),
                    out@ == head + join_comma(nums.take(k as int)),
                decreases grp@.len() - k,
            {
                if k > 0 {
                    out.append(", ");
                }
                out.append(grp[k].as_str());
                proof {
                    assert(nums.take(k as int + 1) =~= nums.take(k as int).push(nums[k as int]));
                    lemma_join_push(nums.take(k as int), nums[k as int]);
                    assert(nums[k as int] == grp@[k as int]@);
                    assert(out@ =~= head + join_comma(nums.take(k as int + 1)));
                }
                k = k + 1;
            }
            proof {
                assert(nums.take(nums.len() as int) =~= nums);
                assert(block_of(s@, c as int) == trail_name(c as int) + " etapp "@ + join_comma(
                    nums,
                ));
                assert(blocks_upto(s@, c as int + 1) =~= base.push(block_of(s@, c as int)));
                lemma_join_push(base, block_of(s@, c as int));
                assert(out@ =~= join_comma(blocks_upto(s@, c as int + 1)));
                assert(blocks_upto(s@, c as int + 1).len() > 0);
            }
        } else {
            proof {
                assert(nums_of(pieces, c as int).len() == 0);
                assert(blocks_upto(s@, c as int + 1) =~= blocks_upto(s@, c as int));
            }
        }
        c = c + 1;
    }
    proof {
        assert(out@ == render(s@));
    }
    Ok(out)
}

} // verus!
