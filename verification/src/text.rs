//! Plain text predicates shared by the estate rules: Unicode white space,
//! blank bodies, and decimal rendering of integers for messages.
use vstd::prelude::*;

verus! {

/// The Unicode `White_Space` property, the set that `char::is_whitespace`
/// and `str::trim` use.
pub open spec fn is_space(c: char) -> bool {
    let v = c as u32;
    ||| 0x09 <= v <= 0x0d
    ||| v == 0x20
    ||| v == 0x85
    ||| v == 0xa0
    ||| v == 0x1680
    ||| 0x2000 <= v <= 0x200a
    ||| v == 0x2028
    ||| v == 0x2029
    ||| v == 0x202f
    ||| v == 0x205f
    ||| v == 0x3000
}

/// A text is blank when trimming white space leaves nothing.
pub open spec fn blank(s: Seq<char>) -> bool {
    forall|i: int| 0 <= i < s.len() ==> is_space(#[trigger] s[i])
}

/// A text holds white space somewhere.
pub open spec fn spaced(s: Seq<char>) -> bool {
    exists|i: int| 0 <= i < s.len() && is_space(#[trigger] s[i])
}

pub fn space(c: char) -> (r: bool)
    ensures
        r == is_space(c),
{
    let v = c as u32;
    (0x09 <= v && v <= 0x0d) || v == 0x20 || v == 0x85 || v == 0xa0 || v == 0x1680 || (0x2000
        <= v && v <= 0x200a) || v == 0x2028 || v == 0x2029 || v == 0x202f || v == 0x205f || v
        == 0x3000
}

/// Whether `text.trim().is_empty()`.
pub fn is_blank(text: &str) -> (r: bool)
    ensures
        r == blank(text@),
{
    let n = text.unicode_len();
    let mut i: usize = 0;
    while i < n
        invariant
            n == text@.len(),
            i <= n,
            forall|j: int| 0 <= j < i ==> is_space(#[trigger] text@[j]),
        decreases n - i,
    {
        let c = text.get_char(i);
        if !space(c) {
            assert(!is_space(text@[i as int]));
            return false;
        }
        i = i + 1;
    }
    true
}

/// Whether `text.chars().any(char::is_whitespace)`.
pub fn has_space(text: &str) -> (r: bool)
    ensures
        r == spaced(text@),
{
    let n = text.unicode_len();
    let mut i: usize = 0;
    while i < n
        invariant
            n == text@.len(),
            i <= n,
            forall|j: int| 0 <= j < i ==> !is_space(#[trigger] text@[j]),
        decreases n - i,
    {
        let c = text.get_char(i);
        if space(c) {
            assert(is_space(text@[i as int]));
            return true;
        }
        i = i + 1;
    }
    false
}

/// The decimal digits of a natural number, without leading zeros.
pub open spec fn digits(n: nat) -> Seq<char>
    decreases n,
{
    if n < 10 {
        seq![(('0' as u32) + n) as char]
    } else {
        digits(n / 10).push((('0' as u32) + (n % 10)) as char)
    }
}

/// The decimal text of an integer, with a leading `-` when negative.
pub open spec fn decimal(n: int) -> Seq<char> {
    if n < 0 {
        seq!['-'] + digits((-n) as nat)
    } else {
        digits(n as nat)
    }
}

fn decimal_digit(d: u64) -> (r: &'static str)
    requires
        d < 10,
    ensures
        r@ == seq![(('0' as u32) + d) as char],
{
    proof {
        reveal_strlit("0");
        reveal_strlit("1");
        reveal_strlit("2");
        reveal_strlit("3");
        reveal_strlit("4");
        reveal_strlit("5");
        reveal_strlit("6");
        reveal_strlit("7");
        reveal_strlit("8");
        reveal_strlit("9");
    }
    if d == 0 {
        assert("0"@ =~= seq![(('0' as u32) + d) as char]);
        "0"
    } else if d == 1 {
        assert("1"@ =~= seq![(('0' as u32) + d) as char]);
        "1"
    } else if d == 2 {
        assert("2"@ =~= seq![(('0' as u32) + d) as char]);
        "2"
    } else if d == 3 {
        assert("3"@ =~= seq![(('0' as u32) + d) as char]);
        "3"
    } else if d == 4 {
        assert("4"@ =~= seq![(('0' as u32) + d) as char]);
        "4"
    } else if d == 5 {
        assert("5"@ =~= seq![(('0' as u32) + d) as char]);
        "5"
    } else if d == 6 {
        assert("6"@ =~= seq![(('0' as u32) + d) as char]);
        "6"
    } else if d == 7 {
        assert("7"@ =~= seq![(('0' as u32) + d) as char]);
        "7"
    } else if d == 8 {
        assert("8"@ =~= seq![(('0' as u32) + d) as char]);
        "8"
    } else {
        assert("9"@ =~= seq![(('0' as u32) + d) as char]);
        "9"
    }
}

/// Writes a natural number in decimal, as `u64::to_string` does.
pub(crate) fn render_u64(n: u64) -> (s: String)
    ensures
        s@ == decimal(n as int),
{
    let mut cur = n;
    let mut acc = String::new();
    while cur >= 10
        invariant
            digits(n as nat) == digits(cur as nat) + acc@,
        decreases cur,
    {
        let d = decimal_digit(cur % 10);
        let next = join(d, acc.as_str());
        proof {
            assert(digits(cur as nat) == digits((cur / 10) as nat).push((('0' as u32) + (cur % 10)) as char));
            assert(digits((cur / 10) as nat) + next@ =~= digits(cur as nat) + acc@);
        }
        acc = next;
        cur = cur / 10;
    }
    let out = join(decimal_digit(cur), acc.as_str());
    proof {
        assert(out@ =~= digits(n as nat));
    }
    out
}

/// Writes an integer in decimal, with a leading `-` when negative, as
/// `i64::to_string` does.
pub(crate) fn render_i64(n: i64) -> (s: String)
    ensures
        s@ == decimal(n as int),
{
    if n >= 0 {
        return render_u64(n as u64);
    }
    let magnitude: u64 = ((-(n + 1)) as u64) + 1;
    let body = render_u64(magnitude);
    proof {
        reveal_strlit("-");
        assert(magnitude as int == -(n as int));
    }
    join("-", body.as_str())
}

/// Writes a size in decimal, as `usize::to_string` does.
pub(crate) fn render_usize(n: usize) -> (s: String)
    ensures
        s@ == decimal(n as int),
{
    render_u64(n as u64)
}

/// Whether two texts hold the same characters.
pub fn same(left: &str, right: &str) -> (r: bool)
    ensures
        r == (left@ == right@),
{
    let n = left.unicode_len();
    let m = right.unicode_len();
    if n != m {
        return false;
    }
    let mut i: usize = 0;
    while i < n
        invariant
            n == left@.len(),
            m == right@.len(),
            n == m,
            i <= n,
            forall|j: int| 0 <= j < i ==> left@[j] == right@[j],
        decreases n - i,
    {
        if left.get_char(i) != right.get_char(i) {
            return false;
        }
        i = i + 1;
    }
    assert(left@ =~= right@);
    true
}

/// Joins two texts.
pub fn join(left: &str, right: &str) -> (s: String)
    ensures
        s@ == left@ + right@,
{
    let mut s = String::from_str(left);
    s.append(right);
    s
}

/// The octal digits of a natural number, without leading zeros.
pub open spec fn octal(n: nat) -> Seq<char>
    decreases n,
{
    if n < 8 {
        seq![(('0' as u32) + n) as char]
    } else {
        octal(n / 8).push((('0' as u32) + (n % 8)) as char)
    }
}

/// A file mode as `{:04o}` writes it: octal, zero-padded to four digits.
pub open spec fn mode_text(n: nat) -> Seq<char> {
    if octal(n).len() >= 4 {
        octal(n)
    } else {
        Seq::new((4 - octal(n).len()) as nat, |i: int| '0') + octal(n)
    }
}

fn octal_digit(d: u32) -> (r: &'static str)
    requires
        d < 8,
    ensures
        r@ == seq![(('0' as u32) + d) as char],
{
    proof {
        reveal_strlit("0");
        reveal_strlit("1");
        reveal_strlit("2");
        reveal_strlit("3");
        reveal_strlit("4");
        reveal_strlit("5");
        reveal_strlit("6");
        reveal_strlit("7");
    }
    if d == 0 {
        assert("0"@ =~= seq![(('0' as u32) + d) as char]);
        "0"
    } else if d == 1 {
        assert("1"@ =~= seq![(('0' as u32) + d) as char]);
        "1"
    } else if d == 2 {
        assert("2"@ =~= seq![(('0' as u32) + d) as char]);
        "2"
    } else if d == 3 {
        assert("3"@ =~= seq![(('0' as u32) + d) as char]);
        "3"
    } else if d == 4 {
        assert("4"@ =~= seq![(('0' as u32) + d) as char]);
        "4"
    } else if d == 5 {
        assert("5"@ =~= seq![(('0' as u32) + d) as char]);
        "5"
    } else if d == 6 {
        assert("6"@ =~= seq![(('0' as u32) + d) as char]);
        "6"
    } else {
        assert("7"@ =~= seq![(('0' as u32) + d) as char]);
        "7"
    }
}

/// Writes a file mode as `{:04o}` does.
pub fn render_mode(n: u32) -> (s: String)
    ensures
        s@ == mode_text(n as nat),
{
    let mut cur = n;
    let mut acc = String::new();
    while cur >= 8
        invariant
            octal(n as nat) == octal(cur as nat) + acc@,
        decreases cur,
    {
        let d = octal_digit(cur % 8);
        let next = join(d, acc.as_str());
        proof {
            assert(octal(cur as nat) == octal((cur / 8) as nat).push((('0' as u32) + (cur % 8)) as char));
            assert(octal((cur / 8) as nat) + next@ =~= octal(cur as nat) + acc@);
        }
        acc = next;
        cur = cur / 8;
    }
    let mut out = join(octal_digit(cur), acc.as_str());
    proof {
        assert(out@ =~= octal(n as nat));
    }
    let ghost full = out@;
    let mut len = out.as_str().unicode_len();
    while len < 4
        invariant
            len == out@.len(),
            len <= 4 || out@ == full,
            full == octal(n as nat),
            out@.len() >= full.len(),
            out@ =~= Seq::new((out@.len() - full.len()) as nat, |i: int| '0') + full,
        decreases 4 - len,
    {
        let next = join("0", out.as_str());
        proof {
            reveal_strlit("0");
            assert(next@ =~= Seq::new((next@.len() - full.len()) as nat, |i: int| '0') + full);
        }
        out = next;
        len = len + 1;
    }
    proof {
        if full.len() >= 4 {
            assert(out@.len() - full.len() == 0);
            assert(out@ =~= full);
        } else {
            assert(out@.len() == 4);
        }
    }
    out
}

/// The number of white-space characters that open a text.
pub open spec fn lead(s: Seq<char>) -> int
    decreases s.len(),
{
    if s.len() == 0 || !is_space(s[0]) {
        0
    } else {
        1 + lead(s.drop_first())
    }
}

/// The number of white-space characters that close a text.
pub open spec fn trail(s: Seq<char>) -> int
    decreases s.len(),
{
    if s.len() == 0 || !is_space(s.last()) {
        0
    } else {
        1 + trail(s.drop_last())
    }
}

/// A text without the white space that opens and closes it, as `str::trim`
/// leaves it.
pub open spec fn trimmed(s: Seq<char>) -> Seq<char> {
    if lead(s) == s.len() {
        Seq::empty()
    } else {
        s.subrange(lead(s), s.len() - trail(s))
    }
}

proof fn lemma_lead(s: Seq<char>, i: int)
    requires
        0 <= i <= s.len(),
        forall|k: int| 0 <= k < i ==> is_space(#[trigger] s[k]),
        i == s.len() || !is_space(s[i]),
    ensures
        lead(s) == i,
    decreases i,
{
    if i > 0 {
        lemma_lead(s.drop_first(), i - 1);
    }
}

proof fn lemma_trail(s: Seq<char>, i: int)
    requires
        0 <= i <= s.len(),
        forall|k: int| s.len() - i <= k < s.len() ==> is_space(#[trigger] s[k]),
        i == s.len() || !is_space(s[s.len() - 1 - i]),
    ensures
        trail(s) == i,
    decreases i,
{
    if i > 0 {
        lemma_trail(s.drop_last(), i - 1);
    }
}

/// `str::trim`: the text without the white space that opens and closes it.
pub fn trim(text: &str) -> (r: String)
    ensures
        r@ == trimmed(text@),
{
    let n = text.unicode_len();
    let mut i: usize = 0;
    while i < n && space(text.get_char(i))
        invariant
            n == text@.len(),
            i <= n,
            forall|k: int| 0 <= k < i ==> is_space(#[trigger] text@[k]),
        decreases n - i,
    {
        i = i + 1;
    }
    proof {
        lemma_lead(text@, i as int);
    }
    if i == n {
        return String::new();
    }
    let mut t: usize = 0;
    while t < n - i && space(text.get_char(n - 1 - t))
        invariant
            n == text@.len(),
            i < n,
            t <= n - i,
            forall|k: int| n - t <= k < n ==> is_space(#[trigger] text@[k]),
        decreases n - i - t,
    {
        t = t + 1;
    }
    proof {
        if t == n - i {
            assert(!is_space(text@[i as int]));
            assert(is_space(text@[i as int]));
        }
        lemma_trail(text@, t as int);
    }
    let kept = text.substring_char(i, n - t);
    String::from_str(kept)
}

} // verus!
