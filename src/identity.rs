use vstd::prelude::*;
use vstd::string::*;

verus! {

/// The suffix that marks a file as a candidate document.
pub open spec fn html_suffix() -> Seq<char> {
    seq!['.', 'h', 't', 'm', 'l']
}

pub open spec fn is_ascii_digit(c: char) -> bool {
    '0' <= c && c <= '9'
}

/// A non-empty run of ASCII digits.
pub open spec fn is_digit_run(s: Seq<char>) -> bool {
    s.len() > 0 && forall|i: int| 0 <= i < s.len() ==> is_ascii_digit(#[trigger] s[i])
}

/// The decimal value of a run of ASCII digits.
pub open spec fn digits_value(s: Seq<char>) -> nat
    decreases s.len(),
{
    if s.len() == 0 {
        0
    } else {
        digits_value(s.drop_last()) * 10 + ((s.last() as u32 - '0' as u32) as nat)
    }
}

/// Index of the last occurrence of `c` in `s`, or -1.
pub open spec fn last_index_of(s: Seq<char>, c: char) -> int
    decreases s.len(),
{
    if s.len() == 0 {
        -1
    } else if s.last() == c {
        s.len() - 1
    } else {
        last_index_of(s.drop_last(), c)
    }
}

/// The largest version number a document can carry.
pub open spec fn max_version() -> nat {
    127
}

/// Splits a file name without its suffix into document id and version: a
/// final hyphen-delimited run of digits is the version, provided something
/// precedes the hyphen; otherwise the whole stem is the id, at version 0.
pub open spec fn split_stem(stem: Seq<char>) -> (Seq<char>, int) {
    let h = last_index_of(stem, '-');
    let tail = stem.subrange(h + 1, stem.len() as int);
    if h > 0 && is_digit_run(tail) && digits_value(tail) <= max_version() {
        (stem.subrange(0, h), digits_value(tail) as int)
    } else {
        (stem, 0)
    }
}

/// The identity that a file name denotes: `None` when the name does not end
/// in `.html` or has nothing before the suffix.
pub open spec fn identity_of(name: Seq<char>) -> Option<(Seq<char>, int)> {
    if name.len() > html_suffix().len()
        && name.subrange(name.len() - html_suffix().len(), name.len() as int) == html_suffix() {
        Some(split_stem(name.subrange(0, name.len() - html_suffix().len())))
    } else {
        None
    }
}

proof fn lemma_last_index_of_bounds(s: Seq<char>, c: char)
    ensures
        -1 <= last_index_of(s, c) < s.len(),
        last_index_of(s, c) >= 0 ==> s[last_index_of(s, c)] == c,
        forall|j: int| last_index_of(s, c) < j < s.len() ==> s[j] != c,
    decreases s.len(),
{
    if s.len() > 0 && s.last() != c {
        lemma_last_index_of_bounds(s.drop_last(), c);
        assert forall|j: int| last_index_of(s, c) < j < s.len() implies s[j] != c by {
            if j < s.len() - 1 {
                assert(s[j] == s.drop_last()[j]);
            }
        }
    }
}

proof fn lemma_last_index_of_unique(s: Seq<char>, c: char, h: int)
    requires
        0 <= h < s.len(),
        s[h] == c,
        forall|j: int| h < j < s.len() ==> s[j] != c,
    ensures
        last_index_of(s, c) == h,
    decreases s.len(),
{
    if h < s.len() - 1 {
        assert(s.drop_last()[h] == c);
        lemma_last_index_of_unique(s.drop_last(), c, h);
    }
}

proof fn lemma_digits_value_monotone(s: Seq<char>, n: int)
    requires
        is_digit_run(s),
        1 <= n <= s.len(),
    ensures
        digits_value(s.subrange(0, n)) <= digits_value(s),
    decreases s.len() - n,
{
    if n < s.len() {
        lemma_digits_value_monotone(s, n + 1);
        let p = s.subrange(0, n + 1);
        assert(p.drop_last() == s.subrange(0, n));
    } else {
        assert(s.subrange(0, n) == s);
    }
}

/// A file named `<id>-<NN>.html`, with `NN` a run of digits no larger than
/// the largest version, denotes document `id` at version `NN`.
pub proof fn lemma_versioned_name(id: Seq<char>, digits: Seq<char>)
    requires
        id.len() > 0,
        is_digit_run(digits),
        digits_value(digits) <= max_version(),
    ensures
        identity_of(id + seq!['-'] + digits + html_suffix()) == Some(
            (id, digits_value(digits) as int),
        ),
{
    let name = id + seq!['-'] + digits + html_suffix();
    let stem = id + seq!['-'] + digits;
    assert(name.subrange(0, name.len() - html_suffix().len()) =~= stem);
    assert(name.subrange(name.len() - html_suffix().len(), name.len() as int) =~= html_suffix());
    let h = id.len() as int;
    assert(stem[h] == '-');
    assert forall|j: int| h < j < stem.len() implies stem[j] != '-' by {
        assert(stem[j] == digits[j - h - 1]);
        assert(is_ascii_digit(digits[j - h - 1]));
    }
    lemma_last_index_of_unique(stem, '-', h);
    assert(stem.subrange(h + 1, stem.len() as int) =~= digits);
    assert(stem.subrange(0, h) =~= id);
}

/// A file named `<id>.html`, where `id` does not end in a hyphen followed
/// by digits, denotes document `id` at version 0.
pub proof fn lemma_unversioned_name(id: Seq<char>)
    requires
        id.len() > 0,
        !(last_index_of(id, '-') >= 0 && is_digit_run(
            id.subrange(last_index_of(id, '-') + 1, id.len() as int),
        )),
    ensures
        identity_of(id + html_suffix()) == Some((id, 0int)),
{
    let name = id + html_suffix();
    assert(name.subrange(0, name.len() - html_suffix().len()) =~= id);
    assert(name.subrange(name.len() - html_suffix().len(), name.len() as int) =~= html_suffix());
}

/// A file name that does not end in `.html` is no candidate document.
pub proof fn lemma_not_html(name: Seq<char>)
    requires
        !(name.len() >= html_suffix().len() && name.subrange(
            name.len() - html_suffix().len(),
            name.len() as int,
        ) == html_suffix()),
    ensures
        identity_of(name) is None,
{
}

/// Parses the decimal run `s[from..]`; `None` when it is empty, holds a
/// character other than a digit, or exceeds the largest version.
fn parse_version(s: &str, from: usize, len: usize) -> (r: Option<i8>)
    requires
        len == s@.len(),
        from <= len,
    ensures
        ({
            let tail = s@.subrange(from as int, len as int);
            match r {
                Some(v) => is_digit_run(tail) && digits_value(tail) <= max_version() && v
                    == digits_value(tail),
                None => !(is_digit_run(tail) && digits_value(tail) <= max_version()),
            }
        }),
{
    if from == len {
        return None;
    }
    let ghost tail = s@.subrange(from as int, len as int);
    let mut value: u32 = 0;
    let mut i: usize = from;
    while i < len
        invariant
            from <= i <= len,
            len == s@.len(),
            tail == s@.subrange(from as int, len as int),
            forall|j: int| 0 <= j < i - from ==> is_ascii_digit(#[trigger] tail[j]),
            value == digits_value(tail.subrange(0, i - from)),
            value <= max_version(),
        decreases len - i,
    {
        let c = s.get_char(i);
        if !('0' <= c && c <= '9') {
            assert(!is_ascii_digit(tail[i - from]));
            return None;
        }
        proof {
            let p = tail.subrange(0, i - from + 1);
            assert(p.drop_last() == tail.subrange(0, i - from));
            assert(p.last() == c);
        }
        value = value * 10 + (c as u32 - '0' as u32);
        i = i + 1;
        if value > 127 {
            proof {
                if is_digit_run(tail) {
                    lemma_digits_value_monotone(tail, i - from);
                }
            }
            return None;
        }
    }
    assert(tail.subrange(0, i - from) == tail);
    Some(value as i8)
}

/// Finds the last hyphen of `s`.
fn last_hyphen(s: &str, len: usize) -> (r: Option<usize>)
    requires
        len == s@.len(),
    ensures
        match r {
            Some(h) => h < len && h as int == last_index_of(s@, '-'),
            None => last_index_of(s@, '-') == -1,
        },
{
    let mut i: usize = len;
    while i > 0
        invariant
            i <= len,
            len == s@.len(),
            forall|j: int| i <= j < len ==> s@[j] != '-',
        decreases i,
    {
        if s.get_char(i - 1) == '-' {
            proof {
                lemma_last_index_of_unique(s@, '-', i - 1);
            }
            return Some(i - 1);
        }
        i = i - 1;
    }
    proof {
        lemma_last_index_of_bounds(s@, '-');
    }
    None
}

/// Derives the document id and version that a file name denotes: `None`
/// when the name is no candidate document (see `identity_of`).
pub fn parse_file_name(name: &str) -> (r: Option<(String, i8)>)
    ensures
        match identity_of(name@) {
            None => r is None,
            Some(idv) => r matches Some(p) && p.0@ == idv.0 && p.1 as int == idv.1,
        },
{
    let len = name.unicode_len();
    if len <= 5 {
        return None;
    }
    let base = len - 5;
    if !(name.get_char(base) == '.' && name.get_char(base + 1) == 'h' && name.get_char(base + 2)
        == 't' && name.get_char(base + 3) == 'm' && name.get_char(base + 4) == 'l') {
        proof {
            let tail = name@.subrange(base as int, len as int);
            if tail == html_suffix() {
                assert(tail[0] == name@[base as int]);
                assert(tail[1] == name@[base + 1]);
                assert(tail[2] == name@[base + 2]);
                assert(tail[3] == name@[base + 3]);
                assert(tail[4] == name@[base + 4]);
            }
        }
        return None;
    }
    assert(name@.subrange(base as int, len as int) =~= html_suffix());
    let stem = name.substring_char(0, base);
    match last_hyphen(stem, base) {
        Some(h) => {
            if h > 0 {
                match parse_version(stem, h + 1, base) {
                    Some(v) => {
                        return Some((String::from_str(stem.substring_char(0, h)), v));
                    },
                    None => {},
                }
            }
        },
        None => {},
    }
    Some((String::from_str(stem), 0))
}

} // verus!
