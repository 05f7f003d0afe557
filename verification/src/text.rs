//! Text: comparing, splitting, trimming, and reading and writing numbers.
use vstd::prelude::*;

verus! {

/// `String::push` puts the character behind those that are there.
pub assume_specification[ String::push ](s: &mut String, c: char)
    ensures
        final(s)@ == old(s)@.push(c),
;

/// `std::str::from_utf8` reads the bytes as text if they are valid UTF-8, and fails if
/// they are not.
#[verifier::external_body]
fn std_from_utf8(bytes: &[u8]) -> (r: Option<&str>)
    ensures
        r is Some <==> vstd::utf8::valid_utf8(bytes@),
        r is Some ==> r->0@ == vstd::utf8::decode_utf8(bytes@),
{
    std::str::from_utf8(bytes).ok()
}

/// Whether two texts are the same.
pub fn same_text(a: &str, b: &str) -> (r: bool)
    ensures
        r == (a@ == b@),
{
    let (x, y) = (a.to_owned(), b.to_owned());
    x == y
}

/// The text that the bytes encode, if they are valid UTF-8.
pub fn text_of_bytes(bytes: &[u8]) -> (r: Option<&str>)
    ensures
        r is Some <==> vstd::utf8::valid_utf8(bytes@),
        r is Some ==> r->0@ == vstd::utf8::decode_utf8(bytes@),
{
    std_from_utf8(bytes)
}

/// The characters of a text.
pub fn chars_of(s: &str) -> (v: Vec<char>)
    ensures
        v@ == s@,
{
    let mut v: Vec<char> = Vec::new();
    for c in it: s.chars()
        invariant
            it.seq() == s@,
            v@ == s@.take(it.index() as int),
    {
        proof {
            assert(s@.take(it.index() + 1) =~= s@.take(it.index() as int).push(c));
        }
        v.push(c);
    }
    proof {
        assert(s@.take(s@.len() as int) =~= s@);
    }
    v
}

/// The text of the characters `from..to` of `v`.
pub fn text_of(v: &Vec<char>, from: usize, to: usize) -> (r: String)
    requires
        from <= to <= v@.len(),
    ensures
        r@ == v@.subrange(from as int, to as int),
{
    let mut r = String::new();
    let mut i: usize = from;
    while i < to
        invariant
            from <= i <= to <= v@.len(),
            r@ == v@.subrange(from as int, i as int),
        decreases to - i,
    {
        r.push(v[i]);
        proof {
            assert(v@.subrange(from as int, i + 1) =~= v@.subrange(from as int, i as int).push(
                v@[i as int],
            ));
        }
        i = i + 1;
    }
    r
}

/// The text `s` begins with `p`.
pub open spec fn starts(s: Seq<char>, p: Seq<char>) -> bool {
    p.len() <= s.len() && s.take(p.len() as int) == p
}

/// Whether the characters `s` begin with the characters `p`.
pub fn starts_with(s: &Vec<char>, p: &Vec<char>) -> (r: bool)
    ensures
        r == starts(s@, p@),
{
    if p.len() > s.len() {
        return false;
    }
    let mut i: usize = 0;
    while i < p.len()
        invariant
            i <= p@.len() <= s@.len(),
            forall|j: int| 0 <= j < i ==> s@[j] == p@[j],
        decreases p@.len() - i,
    {
        if s[i] != p[i] {
            proof {
                assert(s@.take(p@.len() as int)[i as int] != p@[i as int]);
            }
            return false;
        }
        i = i + 1;
    }
    proof {
        assert(s@.take(p@.len() as int) =~= p@);
    }
    true
}

// ---- Splitting at slashes ----

/// The parts of a path between its slashes, without the empty ones.
pub open spec fn path_parts(s: Seq<char>) -> Seq<Seq<char>>
    decreases s.len(),
{
    if s.len() == 0 {
        Seq::empty()
    } else if s.last() == '/' {
        path_parts(s.drop_last())
    } else {
        let cut = last_slash(s);
        proof {
            lemma_last_slash(s);
        }
        path_parts(s.take(cut)).push(s.skip(cut))
    }
}

/// Where the last part of a path begins: behind its last slash.
pub open spec fn last_slash(s: Seq<char>) -> int
    decreases s.len(),
{
    if s.len() == 0 {
        0
    } else if s.last() == '/' {
        s.len() as int
    } else {
        last_slash(s.drop_last())
    }
}

/// Behind the last slash stands no other.
pub proof fn lemma_last_slash(s: Seq<char>)
    ensures
        0 <= last_slash(s) <= s.len(),
        last_slash(s) > 0 ==> s[last_slash(s) - 1] == '/',
        forall|i: int| last_slash(s) <= i < s.len() ==> s[i] != '/',
        s.len() > 0 && s.last() != '/' ==> last_slash(s) < s.len(),
    decreases s.len(),
{
    if s.len() > 0 && s.last() != '/' {
        lemma_last_slash(s.drop_last());
        assert forall|i: int| last_slash(s) <= i < s.len() implies s[i] != '/' by {
            if i < s.len() - 1 {
                assert(s.drop_last()[i] == s[i]);
            }
        }
    }
}

/// One more character that is no slash makes the last part longer, or begins one.
proof fn lemma_parts_step(s: Seq<char>, c: char)
    requires
        c != '/',
    ensures
        last_slash(s.push(c)) == last_slash(s),
        path_parts(s.push(c)) == path_parts(s.take(last_slash(s))).push(
            s.push(c).skip(last_slash(s)),
        ),
{
    lemma_last_slash(s);
    assert(s.push(c).drop_last() =~= s);
    assert(s.push(c).take(last_slash(s)) =~= s.take(last_slash(s)));
}

/// Text without slashes is one part.
pub proof fn law_name_is_one_part(s: Seq<char>)
    requires
        s.len() > 0,
        forall|i: int| 0 <= i < s.len() ==> s[i] != '/',
    ensures
        path_parts(s) == seq![s],
{
    lemma_last_slash(s);
    if last_slash(s) > 0 {
        assert(s[last_slash(s) - 1] == '/');
    }
    assert(s.take(0) =~= Seq::empty());
    assert(s.skip(0) =~= s);
    assert(path_parts(s.take(0)) =~= Seq::empty());
    assert(path_parts(s) =~= seq![s]);
}

/// What stands behind the last slash is the last part, if it is anything.
proof fn lemma_parts_tail(s: Seq<char>)
    ensures
        path_parts(s) == (if last_slash(s) < s.len() {
            path_parts(s.take(last_slash(s))).push(s.skip(last_slash(s)))
        } else {
            path_parts(s.take(last_slash(s)))
        }),
{
    lemma_last_slash(s);
    if last_slash(s) == s.len() {
        assert(s.take(last_slash(s)) =~= s);
    }
}

/// Behind a slash, text without slashes is what follows the last slash.
proof fn lemma_last_slash_of_join(path: Seq<char>, name: Seq<char>)
    requires
        forall|i: int| 0 <= i < name.len() ==> name[i] != '/',
    ensures
        last_slash(path.push('/') + name) == path.len() + 1,
    decreases name.len(),
{
    let s = path.push('/') + name;
    if name.len() == 0 {
        assert(s =~= path.push('/'));
    } else {
        lemma_last_slash_of_join(path, name.drop_last());
        assert(s.drop_last() =~= path.push('/') + name.drop_last());
        assert(s.last() == name.last());
    }
}

/// A name put behind a path and a slash is its last part.
pub proof fn law_join_adds_a_part(path: Seq<char>, name: Seq<char>)
    requires
        name.len() > 0,
        forall|i: int| 0 <= i < name.len() ==> name[i] != '/',
    ensures
        path_parts(path.push('/') + name) == path_parts(path).push(name),
{
    let s = path.push('/') + name;
    lemma_last_slash_of_join(path, name);
    lemma_parts_tail(s);
    assert(s.take(path.len() as int + 1) =~= path.push('/'));
    assert(s.skip(path.len() as int + 1) =~= name);
    assert(path.push('/').drop_last() =~= path);
}

/// The parts of a path between its slashes, without the empty ones.
pub fn split_path(s: &str) -> (r: Vec<String>)
    ensures
        r@.len() == path_parts(s@).len(),
        forall|i: int| 0 <= i < r@.len() ==> (#[trigger] r@[i])@ == path_parts(s@)[i],
{
    let v = chars_of(s);
    let mut parts: Vec<String> = Vec::new();
    let mut start: usize = 0;
    let mut i: usize = 0;
    proof {
        assert(s@.take(0) =~= Seq::empty());
    }
    while i < v.len()
        invariant
            v@ == s@,
            start <= i <= s@.len(),
            start == last_slash(s@.take(i as int)),
            parts@.len() == path_parts(s@.take(start as int)).len(),
            forall|k: int|
                0 <= k < parts@.len() ==> (#[trigger] parts@[k])@ == path_parts(
                    s@.take(start as int),
                )[k],
        decreases s@.len() - i,
    {
        let ghost t = s@.take(i as int);
        proof {
            assert(s@.take(i + 1) =~= t.push(s@[i as int]));
            assert(s@.take(i + 1).drop_last() =~= t);
            assert(t.take(start as int) =~= s@.take(start as int));
            lemma_parts_tail(t);
            assert(t.skip(start as int) =~= s@.subrange(start as int, i as int));
        }
        if v[i] == '/' {
            if start < i {
                let part = text_of(&v, start, i);
                parts.push(part);
            }
            start = i + 1;
        } else {
            proof {
                lemma_parts_step(t, s@[i as int]);
            }
        }
        i = i + 1;
    }
    proof {
        assert(s@.take(i as int) =~= s@);
        lemma_parts_tail(s@);
        assert(s@.skip(start as int) =~= s@.subrange(start as int, i as int));
    }
    if start < v.len() {
        let n: usize = v.len();
        let part = text_of(&v, start, n);
        parts.push(part);
    }
    parts
}

// ---- Normal paths ----

/// The parts of a path that count: one dot names the part before it again, and two dots take
/// that part back.
pub open spec fn kept_parts(parts: Seq<Seq<char>>) -> Seq<Seq<char>>
    decreases parts.len(),
{
    if parts.len() == 0 {
        parts
    } else {
        let before = kept_parts(parts.drop_last());
        if parts.last() == "."@ {
            before
        } else if parts.last() == ".."@ {
            if before.len() > 0 {
                before.drop_last()
            } else {
                before
            }
        } else {
            before.push(parts.last())
        }
    }
}

/// The parts with a slash before each.
pub open spec fn joined(parts: Seq<Seq<char>>) -> Seq<char>
    decreases parts.len(),
{
    if parts.len() == 0 {
        Seq::empty()
    } else {
        joined(parts.drop_last()).push('/') + parts.last()
    }
}

/// The path from the root on, without dots and without more slashes than it needs.
pub open spec fn normalized(path: Seq<char>) -> Seq<char> {
    let parts = kept_parts(path_parts(path));
    if parts.len() == 0 {
        seq!['/']
    } else {
        joined(parts)
    }
}

/// The texts of a list.
pub open spec fn texts(v: Seq<String>) -> Seq<Seq<char>> {
    v.map_values(|t: String| t@)
}

/// The path from the root on, without dots and without more slashes than it needs.
pub fn normalize(path: &str) -> (r: String)
    ensures
        r@ == normalized(path@),
{
    let parts = split_path(path);
    let ghost all = path_parts(path@);
    let mut kept: Vec<String> = Vec::new();
    let mut i: usize = 0;
    assert(all.take(0) =~= Seq::empty());
    assert(texts(kept@) =~= Seq::empty());
    while i < parts.len()
        invariant
            i <= parts@.len(),
            parts@.len() == all.len(),
            forall|k: int| 0 <= k < parts@.len() ==> (#[trigger] parts@[k])@ == all[k],
            texts(kept@) == kept_parts(all.take(i as int)),
        decreases parts@.len() - i,
    {
        let ghost was = kept@;
        assert(all.take(i + 1).drop_last() =~= all.take(i as int));
        if same_text(parts[i].as_str(), "..") {
            proof {
                reveal_strlit(".");
                reveal_strlit("..");
                assert("."@.len() != ".."@.len());
            }
            let _ = kept.pop();
            proof {
                if was.len() > 0 {
                    assert(texts(kept@) =~= texts(was).drop_last());
                } else {
                    assert(texts(kept@) =~= texts(was));
                }
            }
        } else if !same_text(parts[i].as_str(), ".") {
            kept.push(parts[i].clone());
            assert(texts(kept@) =~= texts(was).push(all[i as int]));
        }
        i += 1;
    }
    assert(all.take(i as int) =~= all);
    let ghost want = texts(kept@);
    if kept.len() == 0 {
        let r = "/".to_owned();
        proof {
            reveal_strlit("/");
            assert(r@ =~= seq!['/']);
        }
        return r;
    }
    let mut out = String::new();
    let mut j: usize = 0;
    assert(want.take(0) =~= Seq::empty());
    while j < kept.len()
        invariant
            j <= kept@.len(),
            want == texts(kept@),
            out@ == joined(want.take(j as int)),
        decreases kept@.len() - j,
    {
        assert(want.take(j + 1).drop_last() =~= want.take(j as int));
        out.push('/');
        out.append(kept[j].as_str());
        j += 1;
    }
    assert(want.take(j as int) =~= want);
    out
}

/// The parts of a path are not empty and hold no slash.
proof fn lemma_parts_are_plain(s: Seq<char>, k: int)
    requires
        0 <= k < path_parts(s).len(),
    ensures
        path_parts(s)[k].len() > 0,
        forall|i: int| 0 <= i < path_parts(s)[k].len() ==> path_parts(s)[k][i] != '/',
    decreases s.len(),
{
    lemma_last_slash(s);
    if s.last() == '/' {
        lemma_parts_are_plain(s.drop_last(), k);
    } else if k < path_parts(s).len() - 1 {
        lemma_parts_are_plain(s.take(last_slash(s)), k);
    }
}

/// A part that counts is one of the parts, and no dots.
proof fn lemma_kept(parts: Seq<Seq<char>>, k: int)
    requires
        0 <= k < kept_parts(parts).len(),
    ensures
        parts.contains(kept_parts(parts)[k]),
        kept_parts(parts)[k] != "."@,
        kept_parts(parts)[k] != ".."@,
    decreases parts.len(),
{
    let t = parts.drop_last();
    let x = kept_parts(parts)[k];
    if k < kept_parts(t).len() {
        lemma_kept(t, k);
        let i = choose|i: int| 0 <= i < t.len() && t[i] == x;
        assert(parts[i] == x);
    } else {
        assert(parts[parts.len() - 1] == x);
    }
}

/// Parts without dots all count.
proof fn lemma_all_kept(parts: Seq<Seq<char>>)
    requires
        forall|k: int|
            0 <= k < parts.len() ==> #[trigger] parts[k] != "."@ && parts[k] != ".."@,
    ensures
        kept_parts(parts) == parts,
    decreases parts.len(),
{
    if parts.len() > 0 {
        lemma_all_kept(parts.drop_last());
        assert(parts.last() == parts[parts.len() - 1]);
        assert(parts.drop_last().push(parts.last()) =~= parts);
    }
}

/// What was joined splits into the same parts.
proof fn lemma_split_undoes_join(parts: Seq<Seq<char>>)
    requires
        forall|k: int| 0 <= k < parts.len() ==> (#[trigger] parts[k]).len() > 0,
        forall|k: int, i: int|
            0 <= k < parts.len() && 0 <= i < parts[k].len() ==> #[trigger] parts[k][i] != '/',
    ensures
        path_parts(joined(parts)) == parts,
    decreases parts.len(),
{
    if parts.len() > 0 {
        let t = parts.drop_last();
        assert forall|k: int, i: int| 0 <= k < t.len() && 0 <= i < t[k].len() implies #[trigger]
            t[k][i] != '/' by {
            assert(parts[k][i] != '/');
        }
        lemma_split_undoes_join(t);
        let name = parts.last();
        assert(name == parts[parts.len() - 1]);
        assert forall|i: int| 0 <= i < name.len() implies name[i] != '/' by {
            assert(parts[parts.len() - 1][i] != '/');
        }
        law_join_adds_a_part(joined(t), name);
        assert(t.push(name) =~= parts);
    } else {
        assert(path_parts(joined(parts)) =~= parts);
    }
}

/// A normal path has the parts that count and no others, and normalizing it again changes
/// nothing.
pub proof fn law_normal_path_is_normal(path: Seq<char>)
    ensures
        path_parts(normalized(path)) == kept_parts(path_parts(path)),
        normalized(normalized(path)) == normalized(path),
{
    let all = path_parts(path);
    let parts = kept_parts(all);
    assert forall|k: int| 0 <= k < parts.len() implies (#[trigger] parts[k]).len() > 0
        && parts[k] != "."@ && parts[k] != ".."@ by {
        lemma_kept(all, k);
        let i = choose|i: int| 0 <= i < all.len() && all[i] == parts[k];
        lemma_parts_are_plain(path, i);
    }
    assert forall|k: int, i: int| 0 <= k < parts.len() && 0 <= i < parts[k].len() implies #[trigger]
        parts[k][i] != '/' by {
        lemma_kept(all, k);
        let x = choose|x: int| 0 <= x < all.len() && all[x] == parts[k];
        lemma_parts_are_plain(path, x);
    }
    lemma_all_kept(parts);
    if parts.len() == 0 {
        assert(seq!['/'].drop_last() =~= Seq::<char>::empty());
        assert(path_parts(Seq::<char>::empty()) =~= parts);
    } else {
        lemma_split_undoes_join(parts);
    }
}

// ---- Trimming ----

/// The character is white space.
pub open spec fn is_white(c: char) -> bool {
    let u = c as u32;
    ||| 0x9 <= u <= 0xd
    ||| u == 0x20
    ||| u == 0x85
    ||| u == 0xa0
    ||| u == 0x1680
    ||| 0x2000 <= u <= 0x200a
    ||| u == 0x2028
    ||| u == 0x2029
    ||| u == 0x202f
    ||| u == 0x205f
    ||| u == 0x3000
}

fn white(c: char) -> (r: bool)
    ensures
        r == is_white(c),
{
    let u: u32 = c as u32;
    (0x9 <= u && u <= 0xd) || u == 0x20 || u == 0x85 || u == 0xa0 || u == 0x1680 || (0x2000 <= u
        && u <= 0x200a) || u == 0x2028 || u == 0x2029 || u == 0x202f || u == 0x205f || u == 0x3000
}

/// The text without white space at its ends.
pub open spec fn trimmed(s: Seq<char>) -> Seq<char>
    decreases s.len(),
{
    if s.len() == 0 {
        s
    } else if is_white(s[0]) {
        trimmed(s.skip(1))
    } else if is_white(s.last()) {
        trimmed(s.drop_last())
    } else {
        s
    }
}

/// The text without white space at its ends.
pub fn trim(s: &str) -> (r: String)
    ensures
        r@ == trimmed(s@),
{
    let v = chars_of(s);
    let mut from: usize = 0;
    let mut to: usize = v.len();
    proof {
        assert(s@.subrange(0, to as int) =~= s@);
    }
    while from < to && white(v[from])
        invariant
            v@ == s@,
            from <= to == v@.len(),
            trimmed(s@) == trimmed(s@.subrange(from as int, to as int)),
        decreases to - from,
    {
        proof {
            assert(s@.subrange(from as int, to as int).skip(1) =~= s@.subrange(
                from + 1,
                to as int,
            ));
        }
        from = from + 1;
    }
    while from < to && white(v[to - 1])
        invariant
            v@ == s@,
            from <= to <= v@.len(),
            trimmed(s@) == trimmed(s@.subrange(from as int, to as int)),
            from < to ==> !is_white(s@[from as int]),
        decreases to - from,
    {
        proof {
            assert(s@.subrange(from as int, to as int).drop_last() =~= s@.subrange(
                from as int,
                to - 1,
            ));
        }
        to = to - 1;
    }
    text_of(&v, from, to)
}

// ---- Numbers ----

/// The character of a digit.
pub open spec fn digit(d: int) -> char {
    (48 + d) as char
}

/// A number in decimal.
pub open spec fn decimal(n: nat) -> Seq<char>
    decreases n,
{
    if n < 10 {
        seq![digit(n as int)]
    } else {
        decimal(n / 10).push(digit((n % 10) as int))
    }
}

/// A number in decimal.
pub fn to_decimal(n: u64) -> (r: String)
    ensures
        r@ == decimal(n as nat),
    decreases n,
{
    let last: u8 = (n % 10) as u8;
    let c: char = (48u8 + last) as char;
    if n < 10 {
        let mut r = String::new();
        r.push(c);
        proof {
            assert(r@ =~= seq![digit(n as int)]);
        }
        r
    } else {
        let mut r = to_decimal(n / 10);
        r.push(c);
        r
    }
}

/// The character is a decimal digit.
pub open spec fn is_digit(c: char) -> bool {
    48 <= c as int <= 57
}

/// The value of a row of digits.
pub open spec fn digits_value(s: Seq<char>) -> int
    decreases s.len(),
{
    if s.len() == 0 {
        0
    } else {
        10 * digits_value(s.drop_last()) + (s.last() as int - 48)
    }
}

/// The text is a row of digits whose value is at most `limit`.
pub open spec fn is_number(s: Seq<char>, limit: int) -> bool {
    &&& s.len() > 0
    &&& forall|i: int| 0 <= i < s.len() ==> is_digit(#[trigger] s[i])
    &&& digits_value(s) <= limit
}

/// The text is a number that fits in 64 bits with a sign.
pub open spec fn is_i64_text(s: Seq<char>) -> bool {
    if s.len() > 0 && s[0] == '-' {
        is_number(s.skip(1), 0x8000_0000_0000_0000)
    } else if s.len() > 0 && s[0] == '+' {
        is_number(s.skip(1), 0x7fff_ffff_ffff_ffff)
    } else {
        is_number(s, 0x7fff_ffff_ffff_ffff)
    }
}

/// Whether the text is a number that fits in 64 bits with a sign.
pub fn parses_as_i64(s: &str) -> (r: bool)
    ensures
        r == is_i64_text(s@),
{
    let v = chars_of(s);
    let n: usize = v.len();
    let signed = n > 0 && (v[0] == '-' || v[0] == '+');
    let negative = n > 0 && v[0] == '-';
    let from: usize = if signed {
        1
    } else {
        0
    };
    let limit: u64 = if negative {
        0x8000_0000_0000_0000
    } else {
        0x7fff_ffff_ffff_ffff
    };
    let ghost body = if signed {
        s@.skip(1)
    } else {
        s@
    };
    if from == n {
        return false;
    }
    let mut value: u64 = 0;
    let mut over = false;
    let mut i: usize = from;
    proof {
        assert(body.take(0) =~= Seq::empty());
    }
    while i < n
        invariant
            v@ == s@,
            n == v@.len(),
            from <= i <= n,
            from <= 1,
            body.len() == n - from,
            forall|k: int| 0 <= k < body.len() ==> #[trigger] body[k] == s@[k + from],
            limit <= 0x8000_0000_0000_0000,
            is_i64_text(s@) == is_number(body, limit as int),
            forall|k: int| 0 <= k < i - from ==> is_digit(#[trigger] body[k]),
            over ==> digits_value(body.take(i - from)) > limit,
            !over ==> value == digits_value(body.take(i - from)) && value <= limit,
        decreases n - i,
    {
        let c: u32 = v[i] as u32;
        proof {
            vstd::utf8::char_u32_cast(v@[i as int], c);
            assert(body[i - from] == s@[i as int]);
            assert(body.take(i - from + 1).drop_last() =~= body.take(i - from));
        }
        if c < 48 || c > 57 {
            proof {
                assert(!is_digit(body[i - from]));
            }
            return false;
        }
        let d: u64 = (c - 48) as u64;
        if !over {
            if value > 922337203685477580 || value * 10 + d > limit {
                over = true;
            } else {
                value = value * 10 + d;
            }
        }
        i = i + 1;
    }
    proof {
        assert(body.take(i - from) =~= body);
    }
    !over
}

/// A part "." changes nothing, ".." takes the part before it away, and any other part is added.
pub proof fn law_dots_go_up(parts: Seq<Seq<char>>, name: Seq<char>)
    requires
        name != "."@,
        name != ".."@,
    ensures
        kept_parts(parts.push("."@)) == kept_parts(parts),
        kept_parts(parts.push(name)) == kept_parts(parts).push(name),
        kept_parts(parts.push(name).push(".."@)) == kept_parts(parts),
        kept_parts(Seq::<Seq<char>>::empty().push(".."@)).len() == 0,
{
    reveal_strlit(".");
    reveal_strlit("..");
    assert("."@.len() == 1 && ".."@.len() == 2);
    assert("."@ != ".."@);
    assert(parts.push("."@).drop_last() =~= parts);
    assert(parts.push(name).drop_last() =~= parts);
    assert(parts.push(name).push(".."@).drop_last() =~= parts.push(name));
    assert(kept_parts(parts).push(name).drop_last() =~= kept_parts(parts));
    assert(kept_parts(parts.push(name)) == kept_parts(parts).push(name));
    assert(parts.push(name).push(".."@).last() == ".."@);
    let none = Seq::<Seq<char>>::empty();
    assert(none.push(".."@).drop_last() =~= none);
    assert(none.push(".."@).last() == ".."@);
    assert(kept_parts(none).len() == 0);
}

/// What is left of a path has no dots in it, and each of its parts was there.
pub proof fn law_no_dots_are_left(parts: Seq<Seq<char>>, i: int)
    requires
        0 <= i < kept_parts(parts).len(),
    ensures
        kept_parts(parts)[i] != "."@ && kept_parts(parts)[i] != ".."@,
        parts.contains(kept_parts(parts)[i]),
        kept_parts(parts).len() <= parts.len(),
    decreases parts.len(),
{
    if parts.len() > 0 {
        let t = parts.drop_last();
        let before = kept_parts(t);
        let k = kept_parts(parts);
        if before.len() > 0 {
            law_no_dots_are_left(t, 0);
        }
        if i < before.len() && k[i] == before[i] {
            law_no_dots_are_left(t, i);
            let j = choose|j: int| 0 <= j < t.len() && t[j] == k[i];
            assert(parts[j] == k[i]);
        } else {
            assert(parts[parts.len() - 1] == k[i]);
        }
    }
}

/// The text from `i` up to `j` is left of `s`, and only white space is cut off.
pub open spec fn cut_to(s: Seq<char>, i: int, j: int) -> bool {
    &&& 0 <= i <= j <= s.len()
    &&& trimmed(s) == s.subrange(i, j)
    &&& forall|k: int| 0 <= k < i || j <= k < s.len() ==> is_white(#[trigger] s[k])
}

/// White space in front is cut off with what is cut off behind it.
#[verifier::rlimit(50)]
#[verifier::spinoff_prover]
proof fn lemma_cut_front(s: Seq<char>, i: int, j: int)
    requires
        s.len() > 0,
        is_white(s[0]),
        cut_to(s.skip(1), i, j),
        trimmed(s) == trimmed(s.skip(1)),
    ensures
        cut_to(s, i + 1, j + 1),
{
    let t = s.skip(1);
    assert(t.subrange(i, j) =~= s.subrange(i + 1, j + 1));
    assert forall|k: int| 0 <= k < i + 1 || j + 1 <= k < s.len() implies is_white(
        #[trigger] s[k],
    ) by {
        if k > 0 {
            assert(is_white(t[k - 1]));
            assert(t[k - 1] == s[k]);
        }
    }
}

/// White space at the end is cut off with what is cut off before it.
#[verifier::rlimit(50)]
#[verifier::spinoff_prover]
proof fn lemma_cut_back(s: Seq<char>, i: int, j: int)
    requires
        s.len() > 0,
        is_white(s.last()),
        cut_to(s.drop_last(), i, j),
        trimmed(s) == trimmed(s.drop_last()),
    ensures
        cut_to(s, i, j),
{
    let t = s.drop_last();
    assert(t.subrange(i, j) =~= s.subrange(i, j));
    assert forall|k: int| 0 <= k < i || j <= k < s.len() implies is_white(#[trigger] s[k]) by {
        if k < t.len() {
            assert(is_white(t[k]));
            assert(t[k] == s[k]);
        } else {
            assert(s[k] == s.last());
        }
    }
}

/// Trimming takes white space away at both ends and nothing else.
#[verifier::rlimit(50)]
#[verifier::spinoff_prover]
pub proof fn law_trimming_takes_white_space(s: Seq<char>)
    ensures
        trimmed(s).len() > 0 ==> !is_white(trimmed(s)[0]) && !is_white(trimmed(s).last()),
        exists|i: int, j: int| cut_to(s, i, j),
    decreases s.len(),
{
    if s.len() == 0 {
        assert(trimmed(s) =~= s.subrange(0, 0));
        assert(cut_to(s, 0, 0));
    } else if is_white(s[0]) {
        law_trimming_takes_white_space(s.skip(1));
        let (i, j) = choose|i: int, j: int| cut_to(s.skip(1), i, j);
        lemma_cut_front(s, i, j);
    } else if is_white(s.last()) {
        law_trimming_takes_white_space(s.drop_last());
        let (i, j) = choose|i: int, j: int| cut_to(s.drop_last(), i, j);
        lemma_cut_back(s, i, j);
    } else {
        assert(trimmed(s) =~= s.subrange(0, s.len() as int));
        assert(cut_to(s, 0, s.len() as int));
    }
}

/// Blanks, tabs and line ends are white space; what can be printed in ASCII is not.
pub proof fn law_printable_is_not_white(c: char)
    ensures
        c == ' ' || c == '\t' || c == '\n' || c == '\r' ==> is_white(c),
        0x21 <= c as u32 <= 0x7e ==> !is_white(c),
{
}

/// A number is written in decimal so that its digits give it back, with no zero in front.
pub proof fn law_decimal_gives_the_number_back(n: nat)
    ensures
        digits_value(decimal(n)) == n,
        decimal(n).len() > 0,
        forall|i: int| 0 <= i < decimal(n).len() ==> '0' <= #[trigger] decimal(n)[i] <= '9',
        n > 0 ==> decimal(n)[0] != '0',
    decreases n,
{
    if n < 10 {
        let s = seq![digit(n as int)];
        assert(s.drop_last() =~= Seq::empty());
        assert(digits_value(s.drop_last()) == 0);
        assert(s.last() == digit(n as int));
    } else {
        law_decimal_gives_the_number_back(n / 10);
        let t = decimal(n / 10);
        assert(decimal(n).drop_last() =~= t);
        assert forall|i: int| 0 <= i < decimal(n).len() implies '0' <= #[trigger] decimal(n)[i]
            <= '9' by {
            if i < t.len() {
                assert(decimal(n)[i] == t[i]);
            }
        }
        assert(decimal(n)[0] == t[0]);
    }
}

/// A number in decimal is a signed number of 64 bits if it fits, with or without a sign.
pub proof fn law_numbers_that_fit_are_numbers(n: nat)
    ensures
        is_i64_text(decimal(n)) <==> n <= i64::MAX,
        is_i64_text(seq!['+'] + decimal(n)) <==> n <= i64::MAX,
        is_i64_text(seq!['-'] + decimal(n)) <==> -n >= i64::MIN,
        !is_i64_text(Seq::<char>::empty()) && !is_i64_text(seq!['-']),
{
    law_decimal_gives_the_number_back(n);
    let d = decimal(n);
    assert('0' <= d[0] <= '9');
    assert((seq!['+'] + d).skip(1) =~= d);
    assert((seq!['-'] + d).skip(1) =~= d);
    assert forall|i: int| 0 <= i < d.len() implies is_digit(#[trigger] d[i]) by {
        assert('0' <= d[i] <= '9');
    }
    assert(seq!['-'].skip(1).len() == 0);
}

/// A text with anything but digits behind the sign is no number.
pub proof fn law_letters_are_no_number(s: Seq<char>, i: int)
    requires
        0 <= i < s.len(),
        s[i] < '0' || '9' < s[i],
        i > 0 || (s[i] != '-' && s[i] != '+'),
    ensures
        !is_i64_text(s),
{
    if i > 0 {
        assert(s.skip(1)[i - 1] == s[i]);
    }
    assert(!is_digit(s[i]));
}

/// A text starts with whatever stands in front of it, and with nothing else of that length.
pub proof fn law_text_starts_with_its_front(front: Seq<char>, rest: Seq<char>, other: Seq<char>)
    ensures
        starts(front + rest, front),
        starts(front + rest, other) && other.len() == front.len() ==> other == front,
        starts(front, other) ==> other.len() <= front.len() && front.take(other.len() as int) == other,
{
    assert((front + rest).take(front.len() as int) =~= front);
}

} // verus!
