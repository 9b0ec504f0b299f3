use vstd::prelude::*;
use vstd::string::*;

verus! {

/// Whether `s` begins with `prefix`, compared character by character.
pub fn has_prefix(s: &str, prefix: &str) -> (r: bool)
    ensures
        r == prefix@.is_prefix_of(s@),
{
    let n = s.unicode_len();
    let m = prefix.unicode_len();
    if m > n {
        return false;
    }
    let mut i: usize = 0;
    while i < m
        invariant
            m <= n,
            n == s@.len(),
            m == prefix@.len(),
            i <= m,
            forall|j: int| 0 <= j < i ==> prefix@[j] == s@[j],
        decreases m - i,
    {
        if prefix.get_char(i) != s.get_char(i) {
            assert(prefix@[i as int] != s@.subrange(0, m as int)[i as int]);
            return false;
        }
        i = i + 1;
    }
    assert(prefix@ =~= s@.subrange(0, m as int));
    true
}

/// Whether two strings hold the same characters.
pub fn same_text(a: &str, b: &str) -> (r: bool)
    ensures
        r == (a@ == b@),
{
    if a.unicode_len() != b.unicode_len() {
        return false;
    }
    let r = has_prefix(a, b);
    assert(r ==> a@ =~= b@);
    r
}

/// The parts, with `sep` between each two of them.
pub open spec fn join(parts: Seq<Seq<char>>, sep: Seq<char>) -> Seq<char>
    decreases parts.len(),
{
    if parts.len() == 0 {
        Seq::empty()
    } else if parts.len() == 1 {
        parts[0]
    } else {
        join(parts.drop_last(), sep) + sep + parts.last()
    }
}

/// Whether `t` occurs in `s` as a run of consecutive characters.
pub open spec fn shows(s: Seq<char>, t: Seq<char>) -> bool {
    exists|i: int| 0 <= i && i + t.len() <= s.len() && #[trigger] s.subrange(i, i + t.len()) == t
}

/// A text that occurs in `s` occurs in any text that holds `s`.
pub proof fn lemma_shows_within(pre: Seq<char>, s: Seq<char>, post: Seq<char>, t: Seq<char>)
    requires
        shows(s, t),
    ensures
        shows(pre + s + post, t),
{
    let i = choose|i: int| 0 <= i && i + t.len() <= s.len() && #[trigger] s.subrange(i, i + t.len()) == t;
    let whole = pre + s + post;
    let j = pre.len() + i;
    assert(whole.subrange(j, j + t.len()) =~= s.subrange(i, i + t.len()));
    assert(whole.subrange(j, j + t.len()) == t);
}

/// Every part shows in the joined text.
pub proof fn lemma_join_shows(parts: Seq<Seq<char>>, sep: Seq<char>, k: int)
    requires
        0 <= k < parts.len(),
    ensures
        shows(join(parts, sep), parts[k]),
    decreases parts.len(),
{
    let t = parts[k];
    if parts.len() == 1 {
        let i: int = 0;
        assert(join(parts, sep).subrange(i, i + t.len()) =~= t);
    } else {
        let init = parts.drop_last();
        if k == parts.len() - 1 {
            let j0 = join(init, sep) + sep;
            let i: int = j0.len() as int;
            assert(join(parts, sep).subrange(i, i + t.len()) =~= t);
        } else {
            assert(init[k] == t);
            lemma_join_shows(init, sep, k);
            lemma_shows_within(Seq::empty(), join(init, sep), sep + parts.last(), t);
            assert(Seq::<char>::empty() + join(init, sep) + (sep + parts.last()) =~= join(parts, sep));
        }
    }
}

/// The pieces of `s` between occurrences of `c`, in order.
pub open spec fn pieces(s: Seq<char>, c: char) -> Seq<Seq<char>>
    decreases s.len(),
{
    if s.len() == 0 {
        seq![Seq::empty()]
    } else {
        let p = pieces(s.drop_last(), c);
        if s.last() == c {
            p.push(Seq::empty())
        } else {
            p.update(p.len() - 1, p.last().push(s.last()))
        }
    }
}

pub open spec fn free_of(s: Seq<char>, c: char) -> bool {
    forall|i: int| 0 <= i < s.len() ==> #[trigger] s[i] != c
}

proof fn lemma_pieces_nonempty(s: Seq<char>, c: char)
    ensures
        pieces(s, c).len() >= 1,
    decreases s.len(),
{
    if s.len() > 0 {
        lemma_pieces_nonempty(s.drop_last(), c);
    }
}

/// Appending text free of `c` extends the last piece.
proof fn lemma_pieces_append_free(a: Seq<char>, t: Seq<char>, c: char)
    requires
        free_of(t, c),
    ensures
        pieces(a + t, c) == pieces(a, c).update(
            pieces(a, c).len() - 1,
            pieces(a, c).last() + t,
        ),
    decreases t.len(),
{
    lemma_pieces_nonempty(a, c);
    if t.len() == 0 {
        assert(a + t =~= a);
        assert(pieces(a, c).last() + t =~= pieces(a, c).last());
        assert(pieces(a, c).update(pieces(a, c).len() - 1, pieces(a, c).last()) =~= pieces(a, c));
    } else {
        let t0 = t.drop_last();
        assert(free_of(t0, c));
        lemma_pieces_append_free(a, t0, c);
        assert((a + t).drop_last() =~= a + t0);
        assert((a + t).last() == t.last());
        assert(t.last() != c);
        let p = pieces(a, c);
        let q = pieces(a + t0, c);
        assert(q.len() == p.len());
        assert(q.last() == p.last() + t0);
        assert((p.last() + t0).push(t.last()) =~= p.last() + t);
        assert(pieces(a + t, c) == q.update(q.len() - 1, q.last().push(t.last())));
        assert(pieces(a + t, c) =~= p.update(p.len() - 1, p.last() + t));
    }
}

/// Joining texts free of the separator's first character, then cutting at
/// that character, gives back as many pieces as texts, in order: the first
/// text, then each next one after the rest of the separator.
pub proof fn lemma_join_then_cut(parts: Seq<Seq<char>>, sep: Seq<char>)
    requires
        parts.len() >= 1,
        sep.len() >= 1,
        free_of(sep.skip(1), sep[0]),
        forall|k: int| 0 <= k < parts.len() ==> free_of(#[trigger] parts[k], sep[0]),
    ensures
        pieces(join(parts, sep), sep[0]) == Seq::new(
            parts.len(),
            |k: int| if k == 0 {
                parts[0]
            } else {
                sep.skip(1) + parts[k]
            },
        ),
    decreases parts.len(),
{
    let c = sep[0];
    let expected = Seq::new(
        parts.len(),
        |k: int| if k == 0 {
            parts[0]
        } else {
            sep.skip(1) + parts[k]
        },
    );
    if parts.len() == 1 {
        lemma_pieces_append_free(Seq::empty(), parts[0], c);
        assert(Seq::<char>::empty() + parts[0] =~= parts[0]);
        assert(pieces(Seq::empty(), c).last() + parts[0] =~= parts[0]);
        assert(pieces(join(parts, sep), c) =~= expected);
    } else {
        let init = parts.drop_last();
        assert(forall|k: int| 0 <= k < init.len() ==> init[k] == parts[k]);
        lemma_join_then_cut(init, sep);
        let j0 = join(init, sep);
        let tail = sep.skip(1) + parts.last();
        assert(free_of(tail, c)) by {
            assert forall|i: int| 0 <= i < tail.len() implies #[trigger] tail[i] != c by {
                if i < sep.len() - 1 {
                    assert(tail[i] == sep.skip(1)[i]);
                } else {
                    assert(tail[i] == parts.last()[i - (sep.len() - 1)]);
                    assert(free_of(parts[parts.len() - 1], c));
                }
            }
        }
        assert(sep =~= seq![c] + sep.skip(1));
        assert(join(parts, sep) =~= (j0 + seq![c]) + tail);
        lemma_pieces_append_free(j0 + seq![c], tail, c);
        assert((j0 + seq![c]).drop_last() =~= j0);
        let p0 = pieces(j0, c);
        assert(pieces(j0 + seq![c], c) == p0.push(Seq::empty()));
        assert(Seq::<char>::empty() + tail =~= tail);
        assert(pieces(join(parts, sep), c) =~= expected);
    }
}

/// The text with each line feed replaced by a space.
pub open spec fn flatten_lines(s: Seq<char>) -> Seq<char> {
    s.map_values(|c: char| if c == '\n' { ' ' } else { c })
}

pub open spec fn texts(v: Seq<String>) -> Seq<Seq<char>> {
    v.map_values(|s: String| s@)
}

/// Joins the parts with `sep` between each two of them.
pub fn join_texts(parts: &Vec<String>, sep: &str) -> (r: String)
    ensures
        r@ == join(texts(parts@), sep@),
{
    let mut r = String::new();
    let mut i: usize = 0;
    while i < parts.len()
        invariant
            i <= parts@.len(),
            r@ == join(texts(parts@.subrange(0, i as int)), sep@),
        decreases parts@.len() - i,
    {
        let ghost prev = texts(parts@.subrange(0, i as int));
        if i > 0 {
            r.append(sep);
        }
        r.append(parts[i].as_str());
        i = i + 1;
        proof {
            let cur = texts(parts@.subrange(0, i as int));
            assert(cur.drop_last() =~= prev);
            assert(cur.last() == parts@[i - 1]@);
            if i == 1 {
                assert(r@ =~= cur[0]);
            }
        }
    }
    assert(parts@.subrange(0, i as int) =~= parts@);
    r
}

/// The text with each line feed replaced by a space.
pub fn flatten_text(s: &str) -> (r: String)
    ensures
        r@ == flatten_lines(s@),
{
    let n = s.unicode_len();
    let mut r = String::new();
    let mut i: usize = 0;
    while i < n
        invariant
            i <= n,
            n == s@.len(),
            r@ =~= flatten_lines(s@.subrange(0, i as int)),
        decreases n - i,
    {
        let ghost prev = r@;
        if s.get_char(i) == '\n' {
            r.append(" ");
            proof {
                reveal_strlit(" ");
            }
        } else {
            r.append(s.substring_char(i, i + 1));
        }
        i = i + 1;
        assert(flatten_lines(s@.subrange(0, i as int)) =~= flatten_lines(
            s@.subrange(0, i - 1),
        ).push(flatten_lines(s@)[i - 1]));
    }
    assert(s@.subrange(0, i as int) =~= s@);
    r
}

} // verus!
