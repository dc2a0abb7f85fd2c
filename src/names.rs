use vstd::prelude::*;
use vstd::string::*;

verus! {

/// Whitespace removed when a segment is trimmed: the Unicode `White_Space`
/// characters, as `char::is_whitespace` has them.
pub open spec fn is_ws(c: char) -> bool {
    c == ' ' || ('\t' <= c && c <= '\r') || c == '\u{85}' || c == '\u{A0}' || c == '\u{1680}'
        || ('\u{2000}' <= c && c <= '\u{200A}') || c == '\u{2028}' || c == '\u{2029}'
        || c == '\u{202F}' || c == '\u{205F}' || c == '\u{3000}'
}

pub open spec fn trim_lo(s: Seq<char>, lo: int, hi: int) -> int
    decreases hi - lo,
{
    if lo < hi && is_ws(s[lo]) {
        trim_lo(s, lo + 1, hi)
    } else {
        lo
    }
}

pub open spec fn trim_hi(s: Seq<char>, lo: int, hi: int) -> int
    decreases hi - lo,
{
    if lo < hi && is_ws(s[hi - 1]) {
        trim_hi(s, lo, hi - 1)
    } else {
        hi
    }
}

/// `s` without leading and trailing whitespace.
pub open spec fn trim(s: Seq<char>) -> Seq<char> {
    let lo = trim_lo(s, 0, s.len() as int);
    s.subrange(lo, trim_hi(s, lo, s.len() as int))
}

/// Index of the first `c` at or after `from`, or -1.
pub open spec fn find_char(s: Seq<char>, c: char, from: int) -> int
    decreases s.len() - from,
{
    if from < 0 || from >= s.len() {
        -1
    } else if s[from] == c {
        from
    } else {
        find_char(s, c, from + 1)
    }
}

/// Index of the last `c` before `hi`, or -1.
pub open spec fn rfind_char(s: Seq<char>, c: char, hi: int) -> int
    decreases hi,
{
    if hi <= 0 || hi > s.len() {
        -1
    } else if s[hi - 1] == c {
        hi - 1
    } else {
        rfind_char(s, c, hi - 1)
    }
}

pub open spec fn occurs_at(s: Seq<char>, p: Seq<char>, i: int) -> bool {
    0 <= i && i + p.len() <= s.len() && s.subrange(i, i + p.len()) == p
}

pub open spec fn starts_with(s: Seq<char>, p: Seq<char>) -> bool {
    occurs_at(s, p, 0)
}

/// Index of the first occurrence of `p` at or after `from`, or -1.
pub open spec fn find_from(s: Seq<char>, p: Seq<char>, from: int) -> int
    decreases s.len() + 1 - from,
{
    if from < 0 || from + p.len() > s.len() {
        -1
    } else if occurs_at(s, p, from) {
        from
    } else {
        find_from(s, p, from + 1)
    }
}

/// Index of the first `,` at or after `i` where the angle-bracket depth,
/// which is `d` at `i`, is zero; or -1.
pub open spec fn top_comma(g: Seq<char>, i: int, d: int) -> int
    decreases g.len() - i,
{
    if i < 0 || i >= g.len() {
        -1
    } else if g[i] == '<' {
        top_comma(g, i + 1, d + 1)
    } else if g[i] == '>' {
        top_comma(g, i + 1, d - 1)
    } else if g[i] == ',' && d == 0 {
        i
    } else {
        top_comma(g, i + 1, d)
    }
}

/// The text after the last `::` separator, splitting left to right from `from`.
pub open spec fn last_segment(s: Seq<char>, from: int) -> Seq<char>
    decreases s.len() - from,
{
    let k = find_from(s, "::"@, from);
    if 0 <= from <= s.len() && k >= 0 {
        proof {
            reveal_strlit("::");
            lemma_find_from_bounds(s, "::"@, from);
        }
        last_segment(s, k + 2)
    } else {
        s.subrange(from, s.len() as int)
    }
}

/// Canonical form of a base type name: well-known traits get their short
/// alias, paths under the standard roots keep their last segment.
pub open spec fn canonical_base(s: Seq<char>) -> Seq<char>
    decreases s.len(),
{
    let p = find_from(s, "dyn "@, 0);
    if s == "std::error::Error"@ {
        "Error"@
    } else if p >= 0 {
        proof {
            reveal_strlit("dyn ");
            lemma_find_from_bounds(s, "dyn "@, 0);
            lemma_find_from_bounds(s, "dyn "@, p + 4);
        }
        let q = find_from(s, "dyn "@, p + 4);
        let e = if q >= 0 { q } else { s.len() as int };
        "dyn "@ + canonical_base(s.subrange(p + 4, e))
    } else if s == "core::fmt::Debug"@ {
        "Debug"@
    } else if s == "core::fmt::Display"@ {
        "Display"@
    } else if s == "core::any::Any"@ {
        "Any"@
    } else if starts_with(s, "std::"@) || starts_with(s, "core::"@) || starts_with(s, "alloc::"@) {
        last_segment(s, 0)
    } else {
        s
    }
}

/// Canonical form of a type descriptor.
pub open spec fn canonical(s: Seq<char>) -> Seq<char>
    decreases s.len(), 0int,
{
    let semi = find_char(s, ';', 0);
    let lt = find_char(s, '<', 0);
    proof {
        reveal_strlit("*const ");
        reveal_strlit("*mut ");
        lemma_find_char_bounds(s, ';', 0);
        lemma_find_char_bounds(s, '<', 0);
        lemma_rfind_char_bounds(s, ']', s.len() as int);
    }
    if s.len() > 0 && s[0] == '[' && semi >= 0 {
        let br = rfind_char(s, ']', s.len() as int);
        if br > semi {
            proof {
                lemma_trim_len(s.subrange(1, semi));
            }
            "["@ + canonical(trim(s.subrange(1, semi))) + s.subrange(semi, br) + "]"@
        } else {
            s
        }
    } else if s.len() > 0 && s[0] == '&' {
        "&"@ + canonical(s.subrange(1, s.len() as int))
    } else if starts_with(s, "*const "@) {
        "*const "@ + canonical(s.subrange("*const "@.len() as int, s.len() as int))
    } else if starts_with(s, "*mut "@) {
        "*mut "@ + canonical(s.subrange("*mut "@.len() as int, s.len() as int))
    } else if starts_with(s, "dyn "@) {
        "dyn "@ + canonical_base(s.subrange("dyn "@.len() as int, s.len() as int))
    } else if lt >= 0 && s.len() > 0 && s.last() == '>' && lt + 1 < s.len() {
        canonical_base(s.subrange(0, lt)) + "<"@ + join_args(
            generic_args(s.subrange(lt + 1, s.len() - 1)),
        ) + ">"@
    } else {
        canonical_base(s)
    }
}

/// The canonical forms of the top-level, comma-separated arguments of `g`;
/// a last argument that is blank is left out.
pub open spec fn generic_args(g: Seq<char>) -> Seq<Seq<char>>
    decreases g.len(), 1int,
{
    let k = top_comma(g, 0, 0);
    proof {
        lemma_top_comma_bounds(g, 0, 0);
        lemma_trim_len(g);
    }
    if k >= 0 {
        proof {
            lemma_trim_len(g.subrange(0, k));
        }
        seq![canonical(trim(g.subrange(0, k)))] + generic_args(g.subrange(k + 1, g.len() as int))
    } else if trim(g).len() > 0 {
        seq![canonical(trim(g))]
    } else {
        seq![]
    }
}

/// The arguments separated by `", "`.
pub open spec fn join_args(ps: Seq<Seq<char>>) -> Seq<char>
    decreases ps.len(),
{
    if ps.len() == 0 {
        seq![]
    } else if ps.len() == 1 {
        ps[0]
    } else {
        ps[0] + ", "@ + join_args(ps.drop_first())
    }
}

pub proof fn lemma_trim_lo(s: Seq<char>, lo: int, hi: int)
    requires
        lo <= hi,
    ensures
        lo <= trim_lo(s, lo, hi) <= hi,
    decreases hi - lo,
{
    if lo < hi && is_ws(s[lo]) {
        lemma_trim_lo(s, lo + 1, hi);
    }
}

pub proof fn lemma_trim_hi(s: Seq<char>, lo: int, hi: int)
    requires
        lo <= hi,
    ensures
        lo <= trim_hi(s, lo, hi) <= hi,
    decreases hi - lo,
{
    if lo < hi && is_ws(s[hi - 1]) {
        lemma_trim_hi(s, lo, hi - 1);
    }
}

pub proof fn lemma_trim_len(s: Seq<char>)
    ensures
        trim(s).len() <= s.len(),
{
    lemma_trim_lo(s, 0, s.len() as int);
    lemma_trim_hi(s, trim_lo(s, 0, s.len() as int), s.len() as int);
}

pub proof fn lemma_find_char_bounds(s: Seq<char>, c: char, from: int)
    ensures
        find_char(s, c, from) == -1 || (0 <= from <= find_char(s, c, from) < s.len()
            && s[find_char(s, c, from)] == c),
    decreases s.len() - from,
{
    if !(from < 0 || from >= s.len()) && s[from] != c {
        lemma_find_char_bounds(s, c, from + 1);
    }
}

pub proof fn lemma_rfind_char_bounds(s: Seq<char>, c: char, hi: int)
    ensures
        rfind_char(s, c, hi) == -1 || (0 <= rfind_char(s, c, hi) < hi <= s.len()),
    decreases hi,
{
    if !(hi <= 0 || hi > s.len()) && s[hi - 1] != c {
        lemma_rfind_char_bounds(s, c, hi - 1);
    }
}

pub proof fn lemma_find_from_bounds(s: Seq<char>, p: Seq<char>, from: int)
    ensures
        find_from(s, p, from) == -1 || (0 <= from <= find_from(s, p, from) && occurs_at(
            s,
            p,
            find_from(s, p, from),
        )),
    decreases s.len() + 1 - from,
{
    if !(from < 0 || from + p.len() > s.len()) && !occurs_at(s, p, from) {
        lemma_find_from_bounds(s, p, from + 1);
    }
}

pub proof fn lemma_top_comma_bounds(g: Seq<char>, i: int, d: int)
    ensures
        top_comma(g, i, d) == -1 || (0 <= i <= top_comma(g, i, d) < g.len()),
    decreases g.len() - i,
{
    if !(i < 0 || i >= g.len()) {
        if g[i] == '<' {
            lemma_top_comma_bounds(g, i + 1, d + 1);
        } else if g[i] == '>' {
            lemma_top_comma_bounds(g, i + 1, d - 1);
        } else if g[i] == ',' && d == 0 {
        } else {
            lemma_top_comma_bounds(g, i + 1, d);
        }
    }
}


fn find_char_exec(s: &str, c: char, from: usize) -> (r: Option<usize>)
    requires
        from <= s@.len(),
    ensures
        match r {
            Some(i) => i as int == find_char(s@, c, from as int),
            None => find_char(s@, c, from as int) == -1,
        },
{
    let n = s.unicode_len();
    let mut i = from;
    while i < n
        invariant
            from <= i <= n,
            n == s@.len(),
            find_char(s@, c, from as int) == find_char(s@, c, i as int),
        decreases n - i,
    {
        if s.get_char(i) == c {
            return Some(i);
        }
        i = i + 1;
    }
    None
}

fn rfind_char_exec(s: &str, c: char) -> (r: Option<usize>)
    ensures
        match r {
            Some(i) => i as int == rfind_char(s@, c, s@.len() as int),
            None => rfind_char(s@, c, s@.len() as int) == -1,
        },
{
    let n = s.unicode_len();
    let mut hi = n;
    while hi > 0
        invariant
            hi <= n,
            n == s@.len(),
            rfind_char(s@, c, n as int) == rfind_char(s@, c, hi as int),
        decreases hi,
    {
        if s.get_char(hi - 1) == c {
            return Some(hi - 1);
        }
        hi = hi - 1;
    }
    None
}

fn occurs_at_exec(s: &str, p: &str, i: usize) -> (r: bool)
    requires
        i <= s@.len(),
    ensures
        r == occurs_at(s@, p@, i as int),
{
    let n = s.unicode_len();
    let m = p.unicode_len();
    if m > n - i {
        return false;
    }
    let mut j: usize = 0;
    while j < m
        invariant
            j <= m,
            m == p@.len(),
            n == s@.len(),
            i + m <= n,
            forall|k: int| 0 <= k < j ==> s@[i + k] == p@[k],
        decreases m - j,
    {
        if s.get_char(i + j) != p.get_char(j) {
            assert(s@.subrange(i as int, i + m)[j as int] != p@[j as int]);
            return false;
        }
        j = j + 1;
    }
    assert(s@.subrange(i as int, i + m) =~= p@);
    true
}

fn find_from_exec(s: &str, p: &str, from: usize) -> (r: Option<usize>)
    requires
        from <= s@.len(),
    ensures
        match r {
            Some(i) => i as int == find_from(s@, p@, from as int),
            None => find_from(s@, p@, from as int) == -1,
        },
{
    let n = s.unicode_len();
    let mut i = from;
    while i <= n
        invariant
            from <= i <= n + 1,
            n == s@.len(),
            find_from(s@, p@, from as int) == find_from(s@, p@, i as int),
        decreases n + 1 - i,
    {
        if occurs_at_exec(s, p, i) {
            return Some(i);
        }
        if i == n {
            assert(find_from(s@, p@, n + 1) == -1);
            return None;
        }
        i = i + 1;
    }
    None
}

/// `s` without leading and trailing whitespace.
pub fn trimmed(s: &str) -> (r: &str)
    ensures
        r@ == trim(s@),
{
    let n = s.unicode_len();
    let mut lo: usize = 0;
    while lo < n && is_ws_exec(s.get_char(lo))
        invariant
            lo <= n,
            n == s@.len(),
            trim_lo(s@, 0, n as int) == trim_lo(s@, lo as int, n as int),
        decreases n - lo,
    {
        lo = lo + 1;
    }
    let mut hi: usize = n;
    while lo < hi && is_ws_exec(s.get_char(hi - 1))
        invariant
            lo <= hi <= n,
            n == s@.len(),
            trim_hi(s@, lo as int, n as int) == trim_hi(s@, lo as int, hi as int),
        decreases hi - lo,
    {
        hi = hi - 1;
    }
    s.substring_char(lo, hi)
}

fn is_ws_exec(c: char) -> (r: bool)
    ensures
        r == is_ws(c),
{
    c == ' ' || ('\t' <= c && c <= '\r') || c == '\u{85}' || c == '\u{A0}' || c == '\u{1680}'
        || ('\u{2000}' <= c && c <= '\u{200A}') || c == '\u{2028}' || c == '\u{2029}'
        || c == '\u{202F}' || c == '\u{205F}' || c == '\u{3000}'
}

fn top_comma_exec(g: &str) -> (r: Option<usize>)
    ensures
        match r {
            Some(i) => i as int == top_comma(g@, 0, 0),
            None => top_comma(g@, 0, 0) == -1,
        },
{
    let n = g.unicode_len();
    let mut i: usize = 0;
    let mut opens: usize = 0;
    let mut closes: usize = 0;
    while i < n
        invariant
            i <= n,
            n == g@.len(),
            opens <= i,
            closes <= i,
            top_comma(g@, 0, 0) == top_comma(g@, i as int, opens - closes),
        decreases n - i,
    {
        let c = g.get_char(i);
        if c == '<' {
            opens = opens + 1;
        } else if c == '>' {
            closes = closes + 1;
        } else if c == ',' && opens == closes {
            return Some(i);
        }
        i = i + 1;
    }
    None
}

/// Canonical form of a base type name (see `canonical_base`).
pub fn process_base_type(s: &str) -> (r: String)
    ensures
        r@ == canonical_base(s@),
    decreases s@.len(),
{
    proof {
        reveal_strlit("dyn ");
        reveal_strlit("::");
    }
    let n = s.unicode_len();
    let p = find_from_exec(s, "dyn ", 0);
    if eq_str(s, "std::error::Error") {
        return String::from_str("Error");
    }
    if let Some(p) = p {
        proof {
            lemma_find_from_bounds(s@, "dyn "@, 0);
            lemma_find_from_bounds(s@, "dyn "@, p + 4);
        }
        let q = find_from_exec(s, "dyn ", p + 4);
        let e = match q {
            Some(q) => q,
            None => n,
        };
        let inner = process_base_type(s.substring_char(p + 4, e));
        let mut r = String::from_str("dyn ");
        r.append(inner.as_str());
        return r;
    }
    if eq_str(s, "core::fmt::Debug") {
        return String::from_str("Debug");
    }
    if eq_str(s, "core::fmt::Display") {
        return String::from_str("Display");
    }
    if eq_str(s, "core::any::Any") {
        return String::from_str("Any");
    }
    if occurs_at_exec(s, "std::", 0) || occurs_at_exec(s, "core::", 0) || occurs_at_exec(
        s,
        "alloc::",
        0,
    ) {
        let mut from: usize = 0;
        assert(canonical_base(s@) == last_segment(s@, 0));
        loop
            invariant
                from <= n,
                n == s@.len(),
                canonical_base(s@) == last_segment(s@, from as int),
            decreases n - from,
        {
            match find_from_exec(s, "::", from) {
                Some(k) => {
                    proof {
                        lemma_find_from_bounds(s@, "::"@, from as int);
                        reveal_strlit("::");
                    }
                    from = k + 2;
                },
                None => {
                    assert(last_segment(s@, from as int) == s@.subrange(from as int, n as int));
                    return String::from_str(s.substring_char(from, n));
                },
            }
        }
    }
    String::from_str(s)
}

fn eq_str(s: &str, t: &str) -> (r: bool)
    ensures
        r == (s@ == t@),
{
    if s.unicode_len() != t.unicode_len() {
        return false;
    }
    let r = occurs_at_exec(s, t, 0);
    proof {
        if r {
            assert(s@ =~= s@.subrange(0, t@.len() as int));
        }
        if s@ == t@ {
            assert(s@.subrange(0, t@.len() as int) =~= s@);
        }
    }
    r
}

/// Canonical form of a type descriptor (see `canonical`).
pub fn process_type_name(s: &str) -> (r: String)
    ensures
        r@ == canonical(s@),
    decreases s@.len(), 0int,
{
    proof {
        reveal_strlit("dyn ");
        reveal_strlit("*const ");
        reveal_strlit("*mut ");
        lemma_find_char_bounds(s@, ';', 0);
        lemma_find_char_bounds(s@, '<', 0);
    }
    let n = s.unicode_len();
    let semi = find_char_exec(s, ';', 0);
    let lt = find_char_exec(s, '<', 0);
    if n > 0 && s.get_char(0) == '[' && semi.is_some() {
        let semi = semi.unwrap();
        proof {
            lemma_rfind_char_bounds(s@, ']', n as int);
        }
        if let Some(b) = rfind_char_exec(s, ']') {
            if b > semi {
                let elem = trimmed(s.substring_char(1, semi));
                proof {
                    lemma_trim_len(s@.subrange(1, semi as int));
                }
                let inner = process_type_name(elem);
                let mut r = String::from_str("[");
                r.append(inner.as_str());
                r.append(s.substring_char(semi, b));
                r.append("]");
                return r;
            }
        }
        return String::from_str(s);
    }
    if n > 0 && s.get_char(0) == '&' {
        let inner = process_type_name(s.substring_char(1, n));
        let mut r = String::from_str("&");
        r.append(inner.as_str());
        return r;
    }
    if occurs_at_exec(s, "*const ", 0) {
        let inner = process_type_name(s.substring_char(7, n));
        let mut r = String::from_str("*const ");
        r.append(inner.as_str());
        return r;
    }
    if occurs_at_exec(s, "*mut ", 0) {
        let inner = process_type_name(s.substring_char(5, n));
        let mut r = String::from_str("*mut ");
        r.append(inner.as_str());
        return r;
    }
    if occurs_at_exec(s, "dyn ", 0) {
        let inner = process_base_type(s.substring_char(4, n));
        let mut r = String::from_str("dyn ");
        r.append(inner.as_str());
        return r;
    }
    if let Some(lt) = lt {
        if n > 0 && s.get_char(n - 1) == '>' && lt + 1 < n {
            let base = process_base_type(s.substring_char(0, lt));
            let args = parse_generics(s.substring_char(lt + 1, n - 1));
            let mut r = base;
            r.append("<");
            r.append(args.as_str());
            r.append(">");
            return r;
        }
    }
    process_base_type(s)
}

/// Canonical forms of the top-level arguments of `g`, joined by `", "`.
pub fn parse_generics(g: &str) -> (r: String)
    ensures
        r@ == join_args(generic_args(g@)),
    decreases g@.len(), 2int,
{
    let (r, _) = args_of(g);
    r
}

fn args_of(g: &str) -> (r: (String, bool))
    ensures
        r.0@ == join_args(generic_args(g@)),
        r.1 == (generic_args(g@).len() > 0),
    decreases g@.len(), 1int,
{
    proof {
        lemma_top_comma_bounds(g@, 0, 0);
        lemma_trim_len(g@);
    }
    let n = g.unicode_len();
    match top_comma_exec(g) {
        Some(k) => {
            proof {
                lemma_trim_len(g@.subrange(0, k as int));
            }
            let first = process_type_name(trimmed(g.substring_char(0, k)));
            let rest_str = g.substring_char(k + 1, n);
            let (rest, more) = args_of(rest_str);
            let ghost head = seq![first@];
            let ghost tail = generic_args(rest_str@);
            assert(generic_args(g@) == head + tail);
            assert((head + tail).drop_first() =~= tail);
            assert((head + tail)[0] == first@);
            if more {
                let mut r = first;
                r.append(", ");
                r.append(rest.as_str());
                (r, true)
            } else {
                (first, true)
            }
        },
        None => {
            let t = trimmed(g);
            if t.unicode_len() > 0 {
                let r = process_type_name(t);
                (r, true)
            } else {
                (String::new(), false)
            }
        },
    }
}

/// The canonical name for a raw type descriptor, as the host's type
/// introspection writes it: `standardized_type_name("alloc::vec::Vec<i32>")`
/// is `"Vec<i32>"`.
pub fn standardized_type_name(descriptor: &str) -> (r: String)
    ensures
        r@ == canonical(descriptor@),
{
    process_type_name(descriptor)
}

/// A character that gives a descriptor structure.
pub open spec fn is_mark(c: char) -> bool {
    c == '[' || c == ']' || c == '&' || c == '*' || c == '<' || c == '>' || c == ',' || c == ';'
}

/// A plain path descriptor: no structural character and no trait-object marker.
pub open spec fn is_plain(s: Seq<char>) -> bool {
    &&& forall|i: int| 0 <= i < s.len() ==> !is_mark(#[trigger] s[i])
    &&& forall|i: int| !occurs_at(s, "dyn "@, i)
}

pub proof fn lemma_find_from_absent(s: Seq<char>, p: Seq<char>, from: int)
    requires
        0 <= from,
        forall|i: int| from <= i ==> !occurs_at(s, p, i),
    ensures
        find_from(s, p, from) == -1,
    decreases s.len() + 1 - from,
{
    if !(from < 0 || from + p.len() > s.len()) {
        lemma_find_from_absent(s, p, from + 1);
    }
}

pub proof fn lemma_find_from_none(s: Seq<char>, p: Seq<char>, from: int)
    requires
        0 <= from,
        find_from(s, p, from) == -1,
    ensures
        forall|i: int| from <= i ==> !occurs_at(s, p, i),
    decreases s.len() + 1 - from,
{
    if !(from < 0 || from + p.len() > s.len()) {
        lemma_find_from_none(s, p, from + 1);
    }
}

pub proof fn lemma_find_char_absent(s: Seq<char>, c: char, from: int)
    requires
        0 <= from,
        forall|i: int| 0 <= i < s.len() ==> s[i] != c,
    ensures
        find_char(s, c, from) == -1,
    decreases s.len() - from,
{
    if !(from < 0 || from >= s.len()) {
        lemma_find_char_absent(s, c, from + 1);
    }
}

/// The last segment is a suffix starting at or after `from` with no `::` in it.
pub proof fn lemma_last_segment(s: Seq<char>, from: int)
    requires
        0 <= from <= s.len(),
    ensures
        exists|j: int|
            from <= j <= s.len() && last_segment(s, from) == s.subrange(j, s.len() as int)
                && find_from(s, "::"@, j) == -1,
    decreases s.len() - from,
{
    reveal_strlit("::");
    lemma_find_from_bounds(s, "::"@, from);
    let k = find_from(s, "::"@, from);
    if k >= 0 {
        lemma_last_segment(s, k + 2);
    } else {
        assert(last_segment(s, from) == s.subrange(from, s.len() as int));
    }
}

/// A descriptor with no `::` and no trait-object marker is its own base form.
pub proof fn lemma_base_fixed(r: Seq<char>)
    requires
        forall|i: int| !occurs_at(r, "::"@, i),
        forall|i: int| !occurs_at(r, "dyn "@, i),
    ensures
        canonical_base(r) == r,
{
    reveal_strlit("::");
    reveal_strlit("dyn ");
    reveal_strlit("std::error::Error");
    reveal_strlit("core::fmt::Debug");
    reveal_strlit("core::fmt::Display");
    reveal_strlit("core::any::Any");
    reveal_strlit("std::");
    reveal_strlit("core::");
    reveal_strlit("alloc::");
    lemma_find_from_absent(r, "dyn "@, 0);
    if r == "std::error::Error"@ {
        lemma_colons_at(r, 3);
    }
    if starts_with(r, "std::"@) {
        assert(r.subrange(0, 5)[3] == ':' && r.subrange(0, 5)[4] == ':');
        lemma_colons_at(r, 3);
    }
    if r == "core::fmt::Debug"@ || r == "core::fmt::Display"@ || r == "core::any::Any"@ {
        lemma_colons_at(r, 4);
    }
    if starts_with(r, "core::"@) {
        assert(r.subrange(0, 6)[4] == ':' && r.subrange(0, 6)[5] == ':');
        lemma_colons_at(r, 4);
    }
    if starts_with(r, "alloc::"@) {
        assert(r.subrange(0, 7)[5] == ':' && r.subrange(0, 7)[6] == ':');
        lemma_colons_at(r, 5);
    }
}

proof fn lemma_colons_at(r: Seq<char>, k: int)
    requires
        0 <= k,
        k + 2 <= r.len(),
        r[k] == ':',
        r[k + 1] == ':',
    ensures
        occurs_at(r, "::"@, k),
{
    reveal_strlit("::");
    assert(r.subrange(k, k + 2) =~= "::"@);
}

/// A word with no `:` and no `d` is its own base form and is plain.
pub proof fn lemma_alias_fixed(a: Seq<char>)
    requires
        forall|i: int| 0 <= i < a.len() ==> a[i] != ':' && a[i] != 'd' && !is_mark(#[trigger] a[i]),
    ensures
        canonical_base(a) == a,
        is_plain(a),
{
    reveal_strlit("::");
    reveal_strlit("dyn ");
    assert forall|i: int| !occurs_at(a, "::"@, i) by {
        if occurs_at(a, "::"@, i) {
            assert(a.subrange(i, i + 2)[0] == ':');
        }
    }
    assert forall|i: int| !occurs_at(a, "dyn "@, i) by {
        if occurs_at(a, "dyn "@, i) {
            assert(a.subrange(i, i + 4)[0] == 'd');
        }
    }
    lemma_base_fixed(a);
}

/// On a plain descriptor the whole canonicalization is the base-type step.
pub proof fn lemma_plain_is_base(s: Seq<char>)
    requires
        is_plain(s),
    ensures
        canonical(s) == canonical_base(s),
{
    reveal_strlit("*const ");
    reveal_strlit("*mut ");
    reveal_strlit("dyn ");
    lemma_find_char_absent(s, ';', 0);
    lemma_find_char_absent(s, '<', 0);
    if starts_with(s, "*const "@) {
        assert(s.subrange(0, 7)[0] == '*');
    }
    if starts_with(s, "*mut "@) {
        assert(s.subrange(0, 5)[0] == '*');
    }
    assert(!occurs_at(s, "dyn "@, 0));
}

/// The base form of a plain descriptor is plain and is its own base form.
pub proof fn lemma_plain_base_idempotent(s: Seq<char>)
    requires
        is_plain(s),
    ensures
        is_plain(canonical_base(s)),
        canonical_base(canonical_base(s)) == canonical_base(s),
{
    reveal_strlit("std::error::Error");
    reveal_strlit("core::fmt::Debug");
    reveal_strlit("core::fmt::Display");
    reveal_strlit("core::any::Any");
    reveal_strlit("Error");
    reveal_strlit("Debug");
    reveal_strlit("Display");
    reveal_strlit("Any");
    reveal_strlit("dyn ");
    reveal_strlit("::");
    lemma_find_from_absent(s, "dyn "@, 0);
    if s == "std::error::Error"@ {
        lemma_alias_fixed("Error"@);
    } else if s == "core::fmt::Debug"@ {
        lemma_alias_fixed("Debug"@);
    } else if s == "core::fmt::Display"@ {
        lemma_alias_fixed("Display"@);
    } else if s == "core::any::Any"@ {
        lemma_alias_fixed("Any"@);
    } else if starts_with(s, "std::"@) || starts_with(s, "core::"@) || starts_with(s, "alloc::"@) {
        lemma_last_segment(s, 0);
        let j = choose|j: int|
            0 <= j <= s.len() && last_segment(s, 0) == s.subrange(j, s.len() as int) && find_from(
                s,
                "::"@,
                j,
            ) == -1;
        let r = s.subrange(j, s.len() as int);
        lemma_find_from_none(s, "::"@, j);
        assert forall|i: int| !occurs_at(r, "::"@, i) by {
            if occurs_at(r, "::"@, i) {
                assert(s.subrange(j + i, j + i + 2) =~= r.subrange(i, i + 2));
                assert(occurs_at(s, "::"@, j + i));
            }
        }
        assert forall|i: int| !occurs_at(r, "dyn "@, i) by {
            if occurs_at(r, "dyn "@, i) {
                assert(s.subrange(j + i, j + i + 4) =~= r.subrange(i, i + 4));
                assert(occurs_at(s, "dyn "@, j + i));
            }
        }
        assert forall|i: int| 0 <= i < r.len() implies !is_mark(#[trigger] r[i]) by {
            assert(r[i] == s[j + i]);
        }
        lemma_base_fixed(r);
    }
}

/// Canonicalizing a plain path descriptor a second time changes nothing.
pub proof fn lemma_canonical_idempotent_on_plain(x: Seq<char>)
    requires
        is_plain(x),
    ensures
        canonical(canonical(x)) == canonical(x),
{
    lemma_plain_is_base(x);
    lemma_plain_base_idempotent(x);
    lemma_plain_is_base(canonical_base(x));
}

/// A plain path, a trait object over a plain path, or a reference or raw
/// pointer to such a descriptor.
pub open spec fn is_simple(s: Seq<char>) -> bool
    decreases s.len(),
{
    proof {
        reveal_strlit("*const ");
        reveal_strlit("*mut ");
    }
    ||| is_plain(s)
    ||| (s.len() > 0 && s[0] == '&' && is_simple(s.drop_first()))
    ||| (starts_with(s, "dyn "@) && is_plain(s.subrange(4, s.len() as int)))
    ||| (starts_with(s, "*const "@) && is_simple(s.subrange(7, s.len() as int)))
    ||| (starts_with(s, "*mut "@) && is_simple(s.subrange(5, s.len() as int)))
}

/// The first characters of a descriptor that starts with one of the markers.
proof fn lemma_marker_heads(s: Seq<char>)
    ensures
        starts_with(s, "dyn "@) ==> s[0] == 'd',
        starts_with(s, "*const "@) ==> s[0] == '*' && s[1] == 'c',
        starts_with(s, "*mut "@) ==> s[0] == '*' && s[1] == 'm',
{
    reveal_strlit("dyn ");
    reveal_strlit("*const ");
    reveal_strlit("*mut ");
    if starts_with(s, "dyn "@) {
        assert(s.subrange(0, 4)[0] == 'd');
    }
    if starts_with(s, "*const "@) {
        assert(s.subrange(0, 7)[0] == '*' && s.subrange(0, 7)[1] == 'c');
    }
    if starts_with(s, "*mut "@) {
        assert(s.subrange(0, 5)[0] == '*' && s.subrange(0, 5)[1] == 'm');
    }
}

/// `m + c` starts with the marker `m` and continues with `c`.
proof fn lemma_marker_split(m: Seq<char>, c: Seq<char>)
    ensures
        starts_with(m + c, m),
        (m + c).subrange(m.len() as int, (m + c).len() as int) == c,
{
    assert((m + c).subrange(0, m.len() as int) =~= m);
    assert((m + c).subrange(m.len() as int, (m + c).len() as int) =~= c);
}

/// Canonicalizing a simple descriptor gives a simple descriptor, and doing it
/// a second time changes nothing.
pub proof fn lemma_canonical_idempotent(s: Seq<char>)
    requires
        is_simple(s),
    ensures
        is_simple(canonical(s)),
        canonical(canonical(s)) == canonical(s),
    decreases s.len(),
{
    reveal_strlit("&");
    reveal_strlit("dyn ");
    reveal_strlit("*const ");
    reveal_strlit("*mut ");
    lemma_marker_heads(s);
    if is_plain(s) {
        lemma_canonical_idempotent_on_plain(s);
        lemma_plain_is_base(s);
        lemma_plain_base_idempotent(s);
    } else if s.len() > 0 && s[0] == '&' {
        let t = s.drop_first();
        assert(is_simple(t));
        assert(t =~= s.subrange(1, s.len() as int));
        lemma_canonical_idempotent(t);
        let c = canonical(t);
        let r = canonical(s);
        assert(r == "&"@ + c);
        assert(r.drop_first() =~= c);
        assert(r.subrange(1, r.len() as int) =~= c);
        assert(is_simple(r));
        assert(canonical(r) == "&"@ + canonical(c));
    } else if starts_with(s, "dyn "@) {
        let x = s.subrange(4, s.len() as int);
        lemma_plain_base_idempotent(x);
        let b = canonical_base(x);
        let r = canonical(s);
        assert(r == "dyn "@ + b);
        lemma_marker_split("dyn "@, b);
        lemma_marker_heads(r);
        assert(is_simple(r));
        assert(canonical(r) == "dyn "@ + canonical_base(b));
    } else if starts_with(s, "*const "@) {
        let t = s.subrange(7, s.len() as int);
        assert(is_simple(t));
        lemma_canonical_idempotent(t);
        let c = canonical(t);
        let r = canonical(s);
        assert(r == "*const "@ + c);
        lemma_marker_split("*const "@, c);
        lemma_marker_heads(r);
        assert(is_simple(r));
        assert(canonical(r) == "*const "@ + canonical(c));
    } else {
        let t = s.subrange(5, s.len() as int);
        assert(is_simple(t));
        lemma_canonical_idempotent(t);
        let c = canonical(t);
        let r = canonical(s);
        assert(r == "*mut "@ + c);
        lemma_marker_split("*mut "@, c);
        lemma_marker_heads(r);
        assert(is_simple(r));
        assert(canonical(r) == "*mut "@ + canonical(c));
    }
}

} // verus!
