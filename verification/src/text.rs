use vstd::prelude::*;

verus! {

/// The decimal digit character of `d` (0..10).
pub open spec fn digit_char(d: int) -> char {
    if d == 0 {
        '0'
    } else if d == 1 {
        '1'
    } else if d == 2 {
        '2'
    } else if d == 3 {
        '3'
    } else if d == 4 {
        '4'
    } else if d == 5 {
        '5'
    } else if d == 6 {
        '6'
    } else if d == 7 {
        '7'
    } else if d == 8 {
        '8'
    } else {
        '9'
    }
}

/// The decimal notation of `n`, without leading zeros.
pub open spec fn decimal(n: nat) -> Seq<char>
    decreases n,
{
    if n < 10 {
        seq![digit_char(n as int)]
    } else {
        decimal(n / 10).push(digit_char((n % 10) as int))
    }
}

/// Appends one decimal digit.
fn push_digit(s: &mut String, d: usize)
    requires
        d < 10,
    ensures
        final(s)@ == old(s)@.push(digit_char(d as int)),
{
    proof {
        reveal_strlit("0");
        reveal_strlit("1");
        reveal_strlit("2");
        reveal_strlit("3");
        reveal_strlit("4");
        reveal_strlit("5");
        reveal_strlit("6");
        reveal_strlit("7");
        reveal_strlit("8");
        reveal_strlit("9");
    }
    let ghost before = s@;
    if d == 0 {
        s.append("0");
    } else if d == 1 {
        s.append("1");
    } else if d == 2 {
        s.append("2");
    } else if d == 3 {
        s.append("3");
    } else if d == 4 {
        s.append("4");
    } else if d == 5 {
        s.append("5");
    } else if d == 6 {
        s.append("6");
    } else if d == 7 {
        s.append("7");
    } else if d == 8 {
        s.append("8");
    } else {
        s.append("9");
    }
    assert(s@ =~= before.push(digit_char(d as int)));
}

/// Appends the decimal notation of `n`.
pub fn push_decimal(s: &mut String, n: usize)
    ensures
        final(s)@ == old(s)@ + decimal(n as nat),
    decreases n,
{
    let ghost before = s@;
    if n >= 10 {
        push_decimal(s, n / 10);
    }
    push_digit(s, n % 10);
    assert(s@ =~= before + decimal(n as nat));
}

/// The decimal notation of `n`.
pub fn decimal_string(n: usize) -> (s: String)
    ensures
        s@ == decimal(n as nat),
{
    let mut s = String::new();
    push_decimal(&mut s, n);
    assert(s@ =~= decimal(n as nat));
    s
}


/// Whether `c` is white space by Unicode's `White_Space` property, the
/// definition that `char::is_whitespace`, `str::trim` and
/// `str::split_whitespace` follow.
pub open spec fn is_white_space(c: char) -> bool {
    let u = c as u32;
    ||| 0x9 <= u <= 0xD
    ||| u == 0x20 || u == 0x85 || u == 0xA0 || u == 0x1680
    ||| 0x2000 <= u <= 0x200A
    ||| u == 0x2028 || u == 0x2029 || u == 0x202F || u == 0x205F || u == 0x3000
}

/// Whether `c` is white space.
pub fn is_white_space_char(c: char) -> (r: bool)
    ensures
        r == is_white_space(c),
{
    let u = c as u32;
    (0x9 <= u && u <= 0xD) || u == 0x20 || u == 0x85 || u == 0xA0 || u == 0x1680 || (0x2000 <= u
        && u <= 0x200A) || u == 0x2028 || u == 0x2029 || u == 0x202F || u == 0x205F || u == 0x3000
}

/// The characters of `s`.
pub fn chars_of(s: &str) -> (v: Vec<char>)
    ensures
        v@ == s@,
{
    let n = s.unicode_len();
    let mut v: Vec<char> = Vec::new();
    let mut i: usize = 0;
    while i < n
        invariant
            n == s@.len(),
            i <= n,
            v@ == s@.take(i as int),
        decreases n - i,
    {
        v.push(s.get_char(i));
        i = i + 1;
        assert(v@ =~= s@.take(i as int));
    }
    assert(v@ =~= s@);
    v
}

/// The index of the first character at or after `i` that is not white space
/// (the length if there is none).
pub open spec fn skip_white(s: Seq<char>, i: int) -> int
    decreases s.len() - i,
{
    if 0 <= i < s.len() && is_white_space(s[i]) {
        skip_white(s, i + 1)
    } else {
        i
    }
}

/// The end of `s.take(j)` once its trailing white space is removed.
pub open spec fn back_white(s: Seq<char>, j: int) -> int
    decreases j,
{
    if 0 < j <= s.len() && is_white_space(s[j - 1]) {
        back_white(s, j - 1)
    } else {
        j
    }
}

/// `s` without its leading and trailing white space.
pub open spec fn trimmed(s: Seq<char>) -> Seq<char> {
    let a = skip_white(s, 0);
    let b = back_white(s, s.len() as int);
    if a < b {
        s.subrange(a, b)
    } else {
        Seq::empty()
    }
}

proof fn lemma_skip_white_bounds(s: Seq<char>, i: int)
    requires
        0 <= i <= s.len(),
    ensures
        i <= skip_white(s, i) <= s.len(),
        skip_white(s, i) < s.len() ==> !is_white_space(s[skip_white(s, i)]),
        forall|k: int| i <= k < skip_white(s, i) ==> is_white_space(#[trigger] s[k]),
    decreases s.len() - i,
{
    if i < s.len() && is_white_space(s[i]) {
        lemma_skip_white_bounds(s, i + 1);
    }
}

proof fn lemma_back_white_bounds(s: Seq<char>, j: int)
    requires
        0 <= j <= s.len(),
    ensures
        0 <= back_white(s, j) <= j,
        back_white(s, j) > 0 ==> !is_white_space(s[back_white(s, j) - 1]),
        forall|k: int| back_white(s, j) <= k < j ==> is_white_space(#[trigger] s[k]),
    decreases j,
{
    if 0 < j && is_white_space(s[j - 1]) {
        lemma_back_white_bounds(s, j - 1);
    }
}

/// `s` without its leading and trailing white space, as `str::trim` gives it.
pub fn trim_white(s: &str) -> (r: &str)
    ensures
        r@ == trimmed(s@),
{
    let cs = chars_of(s);
    let n = cs.len();
    let mut a: usize = 0;
    while a < n && is_white_space_char(cs[a])
        invariant
            cs@ == s@,
            n == s@.len(),
            a <= n,
            skip_white(s@, 0) == skip_white(s@, a as int),
        decreases n - a,
    {
        a = a + 1;
    }
    let mut b: usize = n;
    while b > 0 && is_white_space_char(cs[b - 1])
        invariant
            cs@ == s@,
            n == s@.len(),
            b <= n,
            back_white(s@, n as int) == back_white(s@, b as int),
        decreases b,
    {
        b = b - 1;
    }
    if a < b {
        s.substring_char(a, b)
    } else {
        s.substring_char(0, 0)
    }
}

/// Whether `s` begins with `p`.
pub open spec fn has_prefix(s: Seq<char>, p: Seq<char>) -> bool {
    p.len() <= s.len() && s.take(p.len() as int) == p
}

/// Whether the characters `s` begin with the string `p`.
pub fn starts_with_chars(s: &Vec<char>, p: &str) -> (r: bool)
    ensures
        r == has_prefix(s@, p@),
{
    let pc = chars_of(p);
    if pc.len() > s.len() {
        return false;
    }
    let mut i: usize = 0;
    while i < pc.len()
        invariant
            pc@ == p@,
            pc.len() <= s.len(),
            i <= pc.len(),
            s@.take(i as int) == pc@.take(i as int),
        decreases pc.len() - i,
    {
        if s[i] != pc[i] {
            assert(s@.take(pc.len() as int)[i as int] != p@[i as int]);
            return false;
        }
        i = i + 1;
        assert(s@.take(i as int) =~= pc@.take(i as int));
    }
    assert(pc@.take(pc.len() as int) =~= pc@);
    true
}

/// What a left-to-right scan for words has seen of `s`: the words it has
/// closed, and the word it is in the middle of.
pub open spec fn scan_words(s: Seq<char>) -> (Seq<Seq<char>>, Seq<char>)
    decreases s.len(),
{
    if s.len() == 0 {
        (Seq::empty(), Seq::empty())
    } else {
        let prev = scan_words(s.drop_last());
        let c = s.last();
        if is_white_space(c) {
            if prev.1.len() > 0 {
                (prev.0.push(prev.1), Seq::empty())
            } else {
                prev
            }
        } else {
            (prev.0, prev.1.push(c))
        }
    }
}

/// The maximal runs of characters of `s` that are not white space, in order:
/// what `str::split_whitespace` yields.
pub open spec fn words(s: Seq<char>) -> Seq<Seq<char>> {
    let r = scan_words(s);
    if r.1.len() > 0 {
        r.0.push(r.1)
    } else {
        r.0
    }
}

/// The words of `s`, separated by any amount of white space.
pub fn split_words<'a>(s: &'a str) -> (r: Vec<&'a str>)
    ensures
        r.len() == words(s@).len(),
        forall|k: int| 0 <= k < r.len() ==> (#[trigger] r[k])@ == words(s@)[k],
{
    let cs = chars_of(s);
    let n = cs.len();
    let mut out: Vec<&'a str> = Vec::new();
    let mut start: usize = 0;
    let mut in_word = false;
    let mut i: usize = 0;
    while i < n
        invariant
            cs@ == s@,
            n == s@.len(),
            i <= n,
            start <= i,
            out.len() == scan_words(s@.take(i as int)).0.len(),
            forall|k: int|
                0 <= k < out.len() ==> (#[trigger] out[k])@ == scan_words(s@.take(i as int)).0[k],
            in_word ==> start < i && scan_words(s@.take(i as int)).1 == s@.subrange(
                start as int,
                i as int,
            ),
            !in_word ==> scan_words(s@.take(i as int)).1.len() == 0,
        decreases n - i,
    {
        let c = cs[i];
        let ghost prev = scan_words(s@.take(i as int));
        assert(s@.take(i + 1).drop_last() =~= s@.take(i as int));
        assert(s@.take(i + 1).last() == c);
        if is_white_space_char(c) {
            if in_word {
                let w = s.substring_char(start, i);
                out.push(w);
                in_word = false;
            }
        } else {
            if !in_word {
                start = i;
                in_word = true;
            }
            assert(s@.subrange(start as int, i + 1) =~= prev.1.push(c));
        }
        i = i + 1;
    }
    assert(s@.take(n as int) =~= s@);
    if in_word {
        let w = s.substring_char(start, n);
        out.push(w);
    }
    out
}

/// Whether `c` is an ASCII decimal digit.
pub open spec fn is_digit(c: char) -> bool {
    0x30 <= (c as u32) <= 0x39
}

/// The value of the decimal digits `s` (most significant first).
pub open spec fn digits_value(s: Seq<char>) -> nat
    decreases s.len(),
{
    if s.len() == 0 {
        0
    } else {
        digits_value(s.drop_last()) * 10 + ((s.last() as u32) - 0x30) as nat
    }
}

/// The digits of an unsigned number: one leading `+` is allowed.
pub open spec fn unsigned_digits(s: Seq<char>) -> Seq<char> {
    if s.len() > 0 && s[0] == '+' {
        s.drop_first()
    } else {
        s
    }
}

/// Whether `str::parse::<usize>` accepts `s`: an optional `+`, then at least
/// one decimal digit, and a value that fits in a `usize`.
pub open spec fn parses_as_usize(s: Seq<char>) -> bool {
    let d = unsigned_digits(s);
    &&& d.len() > 0
    &&& forall|i: int| 0 <= i < d.len() ==> is_digit(#[trigger] d[i])
    &&& digits_value(d) <= usize::MAX
}

/// The value of the unsigned number `s`.
pub open spec fn usize_value(s: Seq<char>) -> nat {
    digits_value(unsigned_digits(s))
}

proof fn lemma_digits_value_grows(s: Seq<char>, k: int)
    requires
        0 <= k <= s.len(),
        forall|i: int| 0 <= i < s.len() ==> is_digit(#[trigger] s[i]),
    ensures
        digits_value(s.take(k)) <= digits_value(s),
    decreases s.len() - k,
{
    if k < s.len() {
        lemma_digits_value_grows(s.drop_last(), if k < s.len() - 1 { k } else { k });
        assert(s.drop_last().take(k) =~= s.take(k));
        if k == s.len() - 1 {
            assert(s.take(k) =~= s.drop_last());
        } else {
            assert(s.drop_last().take(k) =~= s.take(k));
        }
    } else {
        assert(s.take(k) =~= s);
    }
}

/// The unsigned number that the characters `s` spell, as
/// `str::parse::<usize>` reads it.
pub fn parse_usize(s: &Vec<char>) -> (r: Option<usize>)
    ensures
        r is Some <==> parses_as_usize(s@),
        r is Some ==> r->0 == usize_value(s@),
{
    let n = s.len();
    let mut start: usize = 0;
    if n > 0 && s[0] == '+' {
        start = 1;
    }
    let ghost d = unsigned_digits(s@);
    assert(d =~= s@.subrange(start as int, n as int));
    if start == n {
        return None;
    }
    let mut acc: usize = 0;
    let mut i: usize = start;
    while i < n
        invariant
            n == s@.len(),
            start <= i <= n,
            start < n,
            d == unsigned_digits(s@),
            d == s@.subrange(start as int, n as int),
            forall|j: int| 0 <= j < i - start ==> is_digit(#[trigger] d[j]),
            acc == digits_value(d.take(i - start)),
        decreases n - i,
    {
        let c = s[i];
        let u = c as u32;
        assert(d.take(i - start + 1).drop_last() =~= d.take(i - start));
        assert(d[i - start] == c);
        if u < 0x30 || u > 0x39 {
            assert(!is_digit(d[i - start]));
            assert(!parses_as_usize(s@));
            return None;
        }
        assert(digits_value(d.take(i - start + 1)) == acc * 10 + (u - 0x30));
        let next = match acc.checked_mul(10) {
            Some(m) => m.checked_add((u - 0x30) as usize),
            None => None,
        };
        match next {
            Some(v) => {
                acc = v;
            },
            None => {
                proof {
                    assert(acc * 10 + (u - 0x30) > usize::MAX);
                    if forall|j: int| 0 <= j < d.len() ==> is_digit(#[trigger] d[j]) {
                        lemma_digits_value_grows(d, i - start + 1);
                    }
                    assert(!parses_as_usize(s@));
                }
                return None;
            },
        }
        i = i + 1;
    }
    assert(d.take(n - start) =~= d);
    Some(acc)
}


/// The lowercase form of `s` by Unicode's `Lowercase` property, as
/// `str::to_lowercase` gives it.
pub uninterp spec fn lowercase_of(s: Seq<char>) -> Seq<char>;

/// Whether every character of `s` is ASCII.
pub open spec fn is_ascii_text(s: Seq<char>) -> bool {
    forall|i: int| 0 <= i < s.len() ==> (#[trigger] s[i] as u32) < 128
}

/// The lowercase form of an ASCII character: `A` to `Z` become `a` to `z`,
/// every other character stays.
pub open spec fn ascii_lower(c: char) -> char {
    if 'A' <= c && c <= 'Z' {
        ((c as u32) + 32) as char
    } else {
        c
    }
}

/// The ASCII lowercase form of `s`, character by character.
pub open spec fn ascii_lowercase(s: Seq<char>) -> Seq<char> {
    s.map_values(|c: char| ascii_lower(c))
}

/// Calls `str::to_lowercase`. The contract claims that the result is
/// `lowercase_of` the text, a function of the text alone, and that on ASCII
/// text it lowers `A` to `Z` and keeps every other character (the Unicode
/// `Lowercase` mapping of ASCII). What it does to other characters, the
/// Unicode case tables say, and no clause states it.
#[verifier::external_body]
pub(crate) fn lowercase(s: &str) -> (r: String)
    ensures
        r@ == lowercase_of(s@),
        is_ascii_text(s@) ==> r@ == ascii_lowercase(s@),
{
    s.to_lowercase()
}

/// The index of the last `c` in `s`; -1 where `s` has none.
pub open spec fn last_index_of(s: Seq<char>, c: char) -> int
    decreases s.len(),
{
    if s.len() == 0 {
        -1
    } else if s.last() == c {
        s.len() - 1
    } else {
        last_index_of(s.drop_last(), c)
    }
}

/// The last `c` of `s` is at `m` where `s[m]` is `c` and none follows it
/// (and there is none where `m` is -1 and `s` holds no `c`).
pub proof fn lemma_last_index_at(s: Seq<char>, c: char, m: int)
    requires
        -1 <= m < s.len(),
        m >= 0 ==> s[m] == c,
        forall|i: int| m < i < s.len() ==> s[i] != c,
    ensures
        last_index_of(s, c) == m,
    decreases s.len(),
{
    if s.len() > 0 && m < s.len() - 1 {
        lemma_last_index_at(s.drop_last(), c, m);
    }
}

/// The last index of a character is -1 or an index of the text.
pub proof fn lemma_last_index_range(s: Seq<char>, c: char)
    ensures
        -1 <= last_index_of(s, c) < s.len(),
    decreases s.len(),
{
    if s.len() > 0 {
        lemma_last_index_range(s.drop_last(), c);
    }
}

/// The file name of a path, as `std::path::Path::file_name` finds it: the
/// last of its `/`-separated parts that is neither empty nor `.` (so a path
/// that ends in `/` or `/.` names the part before); none where there is no
/// such part, or where that part is `..`.
pub open spec fn file_name_of(p: Seq<char>) -> Option<Seq<char>>
    decreases p.len(),
{
    let k = last_index_of(p, '/');
    let part = p.subrange(k + 1, p.len() as int);
    if part.len() == 0 || part == seq!['.'] {
        if k < 0 {
            None
        } else {
            proof {
                lemma_last_index_range(p, '/');
            }
            file_name_of(p.subrange(0, k))
        }
    } else if part == seq!['.', '.'] {
        None
    } else {
        Some(part)
    }
}

/// The extension of the final component of the path `path`, as
/// `std::path::Path::extension` documents it: the text after the last `.`
/// of the file name; none where there is no file name, where the file name
/// has no `.`, or where its only `.` is its first character.
pub open spec fn path_extension_of(path: Seq<char>) -> Option<Seq<char>> {
    match file_name_of(path) {
        Some(name) => {
            let d = last_index_of(name, '.');
            if d <= 0 {
                None
            } else {
                Some(name.subrange(d + 1, name.len() as int))
            }
        },
        None => None,
    }
}

/// A name that holds no `/` and is neither empty, `.` nor `..` is the file
/// name of itself and of itself in any directory.
proof fn lemma_file_name_plain(dir: Seq<char>, name: Seq<char>)
    requires
        name.len() > 0,
        forall|i: int| 0 <= i < name.len() ==> name[i] != '/',
        name != seq!['.'],
        name != seq!['.', '.'],
    ensures
        file_name_of(name) == Some(name),
        file_name_of(dir + seq!['/'] + name) == Some(name),
{
    lemma_last_index_at(name, '/', -1);
    assert(name.subrange(0, name.len() as int) =~= name);
    let p = dir + seq!['/'] + name;
    let k = dir.len() as int;
    assert forall|i: int| k < i < p.len() implies p[i] != '/' by {
        assert(p[i] == name[i - k - 1]);
    }
    lemma_last_index_at(p, '/', k);
    assert(p.subrange(k + 1, p.len() as int) =~= name);
}

/// The extension of a file `stem.ext` is `ext`, in any directory: the text
/// after the last `.` of the final component, whatever dots the directories
/// hold.
pub proof fn law_extension_of_file(dir: Seq<char>, stem: Seq<char>, ext: Seq<char>)
    requires
        stem.len() > 0,
        forall|i: int| 0 <= i < stem.len() ==> stem[i] != '/',
        forall|i: int| 0 <= i < ext.len() ==> ext[i] != '/' && ext[i] != '.',
        stem + seq!['.'] + ext != seq!['.', '.'],
    ensures
        path_extension_of(stem + seq!['.'] + ext) == Some(ext),
        path_extension_of(dir + seq!['/'] + stem + seq!['.'] + ext) == Some(ext),
{
    let name = stem + seq!['.'] + ext;
    let m = stem.len() as int;
    assert(name.len() >= 2);
    assert forall|i: int| 0 <= i < name.len() implies name[i] != '/' by {
        if i < m {
            assert(name[i] == stem[i]);
        } else if i > m {
            assert(name[i] == ext[i - m - 1]);
        }
    }
    assert(name != seq!['.']);
    lemma_file_name_plain(dir, name);
    assert(dir + seq!['/'] + stem + seq!['.'] + ext =~= dir + seq!['/'] + name);
    assert(name[m] == '.');
    assert forall|i: int| m < i < name.len() implies name[i] != '.' by {
        assert(name[i] == ext[i - m - 1]);
    }
    lemma_last_index_at(name, '.', m);
    assert(name.subrange(m + 1, name.len() as int) =~= ext);
}

/// A file whose name has no `.` but its first character, in any directory,
/// has no extension.
pub proof fn law_no_extension_without_dot(dir: Seq<char>, first: char, rest: Seq<char>)
    requires
        first != '/',
        forall|i: int| 0 <= i < rest.len() ==> rest[i] != '/' && rest[i] != '.',
        seq![first] + rest != seq!['.'],
    ensures
        path_extension_of(seq![first] + rest) is None,
        path_extension_of(dir + seq!['/'] + seq![first] + rest) is None,
{
    let name = seq![first] + rest;
    assert forall|i: int| 0 < i < name.len() implies name[i] != '.' && name[i] != '/' by {
        assert(name[i] == rest[i - 1]);
    }
    assert(name[0] == first);
    assert(name != seq!['.', '.']) by {
        if name.len() == 2 {
            assert(name[1] != '.');
        }
    }
    lemma_file_name_plain(dir, name);
    assert(dir + seq!['/'] + seq![first] + rest =~= dir + seq!['/'] + name);
    if first == '.' {
        lemma_last_index_at(name, '.', 0);
    } else {
        lemma_last_index_at(name, '.', -1);
    }
}

/// The extension of the path `path`, as `std::path::Path::extension` gives
/// it: the file name is the last part between `/`s that is neither empty nor
/// `.`, and the extension is what follows its last `.`.
fn path_extension(path: &str) -> (r: Option<String>)
    ensures
        match r {
            Some(e) => path_extension_of(path@) == Some(e@),
            None => path_extension_of(path@) is None,
        },
{
    let cs = chars_of(path);
    let mut end: usize = cs.len();
    let mut start: usize = 0;
    assert(cs@.subrange(0, end as int) =~= path@);
    loop
        invariant
            cs@ == path@,
            end <= cs@.len(),
            file_name_of(cs@.subrange(0, end as int)) == file_name_of(path@),
        ensures
            start <= end <= cs@.len(),
            file_name_of(path@) == Some(cs@.subrange(start as int, end as int)),
        decreases end,
    {
        let ghost pre = cs@.subrange(0, end as int);
        let mut j: usize = end;
        while j > 0 && cs[j - 1] != '/'
            invariant
                j <= end <= cs@.len(),
                forall|i: int| j <= i < end ==> cs@[i] != '/',
            decreases j,
        {
            j = j - 1;
        }
        proof {
            lemma_last_index_at(pre, '/', j - 1);
            assert(pre.subrange(j as int, end as int) =~= cs@.subrange(j as int, end as int));
        }
        let len = end - j;
        if len == 0 || (len == 1 && cs[j] == '.') {
            proof {
                if len == 1 {
                    assert(cs@.subrange(j as int, end as int) =~= seq!['.']);
                }
            }
            if j == 0 {
                proof {
                    assert(file_name_of(pre) is None);
                }
                return None;
            }
            proof {
                assert(pre.subrange(0, j - 1) =~= cs@.subrange(0, j - 1));
            }
            end = j - 1;
        } else if len == 2 && cs[j] == '.' && cs[j + 1] == '.' {
            proof {
                assert(cs@.subrange(j as int, end as int) =~= seq!['.', '.']);
            }
            return None;
        } else {
            proof {
                if len == 1 {
                    assert(cs@.subrange(j as int, end as int) != seq!['.']) by {
                        assert(cs@.subrange(j as int, end as int)[0] == cs@[j as int]);
                    }
                }
                if len == 2 {
                    assert(cs@.subrange(j as int, end as int) != seq!['.', '.']) by {
                        assert(cs@.subrange(j as int, end as int)[0] == cs@[j as int]);
                        assert(cs@.subrange(j as int, end as int)[1] == cs@[j + 1]);
                    }
                }
                assert(file_name_of(pre) == Some(cs@.subrange(j as int, end as int)));
            }
            start = j;
            break;
        }
    }
    let ghost name = cs@.subrange(start as int, end as int);
    assert(file_name_of(path@) == Some(name));
    let mut k: usize = end;
    while k > start && cs[k - 1] != '.'
        invariant
            start <= k <= end <= cs@.len(),
            forall|i: int| k <= i < end ==> cs@[i] != '.',
        decreases k,
    {
        k = k - 1;
    }
    proof {
        lemma_last_index_at(name, '.', k - 1 - start);
    }
    if k == start || k - 1 == start {
        None
    } else {
        let e = path.substring_char(k, end).to_owned();
        proof {
            assert(name.subrange(k - start, name.len() as int) =~= cs@.subrange(k as int, end as int));
        }
        Some(e)
    }
}

/// The view of an optional string.
pub open spec fn opt_chars(o: Option<String>) -> Option<Seq<char>> {
    match o {
        Some(s) => Some(s@),
        None => None,
    }
}

/// The lowercase form of an optional extension.
pub open spec fn lowercase_ext(o: Option<Seq<char>>) -> Option<Seq<char>> {
    match o {
        Some(s) => Some(lowercase_of(s)),
        None => None,
    }
}

/// The extension of `path`, lowercased: what both model and world files are
/// told apart by.
pub fn lowercase_extension(path: &str) -> (r: Option<String>)
    ensures
        opt_chars(r) == lowercase_ext(path_extension_of(path@)),
        path_extension_of(path@) matches Some(e) ==> (is_ascii_text(e) ==> lowercase_of(
            e,
        ) == ascii_lowercase(e)),
{
    match path_extension(path) {
        Some(e) => Some(lowercase(e.as_str())),
        None => None,
    }
}

/// Whether the string `s` spells the literal `lit`.
pub fn str_is(s: &String, lit: &str) -> (r: bool)
    ensures
        r == (s@ == lit@),
{
    let l = String::from_str(lit);
    *s == l
}

} // verus!
