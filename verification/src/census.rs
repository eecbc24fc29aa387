//! The census of a legacy Space before its migration: the evidence found on
//! disk, in path order, and the fingerprint that names it.
use crate::error::Error;
use crate::prepare::{Fault, raises};
use crate::text::{decimal, join, render_usize};
use crate::world::{lex_less, less};
use sha2::Digest;
use vstd::prelude::*;
use vstd::utf8::encode_utf8;

verus! {

/// The release a migration moves a Space to.
pub const RELEASE: &'static str = "v0.10.0";

/// One path of the legacy Space as the census saw it.
#[derive(Clone, Debug, PartialEq, Eq)]
pub struct Evidence {
    pub path: String,
    pub kind: String,
    pub bytes: u64,
    pub mode: Option<u32>,
    pub digest: Option<String>,
}

/// What a census counted, and the evidence it rests on.
#[derive(Clone, Debug, PartialEq, Eq)]
pub struct Census {
    pub release: String,
    pub fingerprint: String,
    pub domain: usize,
    pub repository: usize,
    pub task: usize,
    pub member: usize,
    pub claim: usize,
    pub boundary: usize,
    pub dependency: usize,
    pub current: usize,
    pub phase: usize,
    pub artifact: usize,
    pub evidence: Vec<Evidence>,
}

/// The SHA-256 digest of a byte string.
pub uninterp spec fn sha256(bytes: Seq<u8>) -> Seq<u8>;

/// `sha2::Sha256::digest`: the SHA-256 digest of the bytes, which is 32
/// bytes long.  What the digest is, beyond its length, is the name above.
#[verifier::external_body]
fn digest(bytes: &[u8]) -> (r: Vec<u8>)
    ensures
        r@ == sha256(bytes@),
        r@.len() == 32,
{
    sha2::Sha256::digest(bytes).to_vec()
}

/// The little-endian bytes of a number, `n` of them.
pub open spec fn little(v: nat, n: nat) -> Seq<u8>
    decreases n,
{
    if n == 0 {
        Seq::empty()
    } else {
        seq![(v % 256) as u8] + little(v / 256, (n - 1) as nat)
    }
}

fn push_little(out: &mut Vec<u8>, v: u64, n: usize)
    requires
        n <= 8,
    ensures
        final(out)@ == old(out)@ + little(v as nat, n as nat),
{
    let mut x = v;
    let mut i: usize = 0;
    let ghost start = out@;
    while i < n
        invariant
            i <= n,
            start == old(out)@,
            little(v as nat, n as nat) == out@.subrange(start.len() as int, out@.len() as int) + little(x as nat, (n - i) as nat),
            out@.subrange(0, start.len() as int) == start,
            out@.len() == start.len() + i,
        decreases n - i,
    {
        let ghost before = out@;
        out.push((x % 256) as u8);
        proof {
            assert(little(x as nat, (n - i) as nat) == seq![(x % 256) as u8] + little((x / 256) as nat, (n - i - 1) as nat));
            assert(out@.subrange(start.len() as int, out@.len() as int) =~= before.subrange(start.len() as int, before.len() as int).push((x % 256) as u8));
            assert(out@.subrange(0, start.len() as int) =~= before.subrange(0, start.len() as int));
        }
        x = x / 256;
        i = i + 1;
    }
    proof {
        assert(out@ =~= out@.subrange(0, start.len() as int) + out@.subrange(start.len() as int, out@.len() as int));
    }
}

/// The bytes of one piece of evidence as the fingerprint reads them: the
/// path, a zero, the kind, a zero, the size and the mode as little-endian
/// integers, the digest if any, and 0xff.
pub open spec fn evidence_bytes(e: Evidence) -> Seq<u8> {
    encode_utf8(e.path@) + seq![0u8] + encode_utf8(e.kind@) + seq![0u8] + little(e.bytes as nat, 8) + little(match e.mode {
        Some(m) => m as nat,
        None => 0,
    }, 4) + match e.digest {
        Some(d) => encode_utf8(d@),
        None => Seq::empty(),
    } + seq![0xffu8]
}

/// The bytes the fingerprint digests: every piece of evidence, in order.
pub open spec fn message(evidence: Seq<Evidence>) -> Seq<u8>
    decreases evidence.len(),
{
    if evidence.len() == 0 {
        Seq::empty()
    } else {
        message(evidence.drop_last()) + evidence_bytes(evidence.last())
    }
}

fn push_bytes(out: &mut Vec<u8>, bytes: &[u8])
    ensures
        final(out)@ == old(out)@ + bytes@,
{
    let mut i: usize = 0;
    let ghost start = out@;
    while i < bytes.len()
        invariant
            i <= bytes@.len(),
            start == old(out)@,
            out@ == start + bytes@.take(i as int),
        decreases bytes@.len() - i,
    {
        out.push(bytes[i]);
        proof {
            assert(bytes@.take(i + 1) =~= bytes@.take(i as int).push(bytes@[i as int]));
            assert(out@ =~= start + bytes@.take(i + 1));
        }
        i = i + 1;
    }
    proof {
        assert(bytes@.take(bytes@.len() as int) =~= bytes@);
    }
}

fn push_text(out: &mut Vec<u8>, s: &str)
    ensures
        final(out)@ == old(out)@ + encode_utf8(s@),
{
    let b = s.as_bytes();
    push_bytes(out, b);
}

/// The bytes the fingerprint digests.
pub fn fingerprint_message(evidence: &[Evidence]) -> (r: Vec<u8>)
    ensures
        r@ == message(evidence@),
{
    let mut out: Vec<u8> = Vec::new();
    let mut i: usize = 0;
    proof {
        assert(evidence@.take(0) =~= Seq::<Evidence>::empty());
    }
    while i < evidence.len()
        invariant
            i <= evidence@.len(),
            out@ == message(evidence@.take(i as int)),
        decreases evidence@.len() - i,
    {
        proof {
            let t = evidence@.take(i + 1);
            assert(t.drop_last() =~= evidence@.take(i as int));
            assert(t.last() == evidence@[i as int]);
        }
        let e = &evidence[i];
        let ghost before = out@;
        push_text(&mut out, e.path.as_str());
        out.push(0u8);
        push_text(&mut out, e.kind.as_str());
        out.push(0u8);
        push_little(&mut out, e.bytes, 8);
        let mode: u32 = match e.mode {
            Some(m) => m,
            None => 0,
        };
        push_little(&mut out, mode as u64, 4);
        match &e.digest {
            Some(d) => push_text(&mut out, d.as_str()),
            None => {},
        }
        out.push(0xffu8);
        proof {
            assert(out@ =~= before + evidence_bytes(*e));
        }
        i = i + 1;
    }
    proof {
        assert(evidence@.take(evidence@.len() as int) =~= evidence@);
    }
    out
}

/// A hexadecimal digit in lower case.
pub open spec fn hex_digit(d: nat) -> char {
    if d < 10 {
        (('0' as u32) + d) as char
    } else {
        (('a' as u32) + d - 10) as char
    }
}

/// Bytes in lower-case hexadecimal, two digits each.
pub open spec fn hex(bytes: Seq<u8>) -> Seq<char>
    decreases bytes.len(),
{
    if bytes.len() == 0 {
        Seq::empty()
    } else {
        hex(bytes.drop_last()) + seq![hex_digit((bytes.last() / 16) as nat), hex_digit((bytes.last() % 16) as nat)]
    }
}

fn nibble(d: u8) -> (r: &'static str)
    requires
        d < 16,
    ensures
        r@ == seq![hex_digit(d as nat)],
{
    proof {
        reveal_strlit("0");
        reveal_strlit("1");
        reveal_strlit("2");
        reveal_strlit("3");
        reveal_strlit("4");
        reveal_strlit("5");
        reveal_strlit("6");
        reveal_strlit("7");
        reveal_strlit("8");
        reveal_strlit("9");
        reveal_strlit("a");
        reveal_strlit("b");
        reveal_strlit("c");
        reveal_strlit("d");
        reveal_strlit("e");
        reveal_strlit("f");
    }
    let r = if d == 0 {
        "0"
    } else if d == 1 {
        "1"
    } else if d == 2 {
        "2"
    } else if d == 3 {
        "3"
    } else if d == 4 {
        "4"
    } else if d == 5 {
        "5"
    } else if d == 6 {
        "6"
    } else if d == 7 {
        "7"
    } else if d == 8 {
        "8"
    } else if d == 9 {
        "9"
    } else if d == 10 {
        "a"
    } else if d == 11 {
        "b"
    } else if d == 12 {
        "c"
    } else if d == 13 {
        "d"
    } else if d == 14 {
        "e"
    } else {
        "f"
    };
    assert(r@ =~= seq![hex_digit(d as nat)]);
    r
}

/// Writes bytes in lower-case hexadecimal, as `{:x}` writes a digest.
pub fn render_hex(bytes: &[u8]) -> (r: String)
    ensures
        r@ == hex(bytes@),
{
    let mut acc = String::new();
    let mut i: usize = 0;
    proof {
        assert(bytes@.take(0) =~= Seq::<u8>::empty());
    }
    while i < bytes.len()
        invariant
            i <= bytes@.len(),
            acc@ == hex(bytes@.take(i as int)),
        decreases bytes@.len() - i,
    {
        proof {
            let t = bytes@.take(i + 1);
            assert(t.drop_last() =~= bytes@.take(i as int));
            assert(t.last() == bytes@[i as int]);
        }
        let b = bytes[i];
        let a = join(acc.as_str(), nibble(b / 16));
        acc = join(a.as_str(), nibble(b % 16));
        i = i + 1;
    }
    proof {
        assert(bytes@.take(bytes@.len() as int) =~= bytes@);
    }
    acc
}

/// The fingerprint of the evidence: the SHA-256 digest of its bytes, in
/// lower-case hexadecimal.
pub fn fingerprint(evidence: &[Evidence]) -> (r: String)
    ensures
        r@ == hex(sha256(message(evidence@))),
{
    let bytes = fingerprint_message(evidence);
    let d = digest(bytes.as_slice());
    render_hex(d.as_slice())
}

/// Evidence order: by path, then kind.
pub open spec fn evidence_less(a: Evidence, b: Evidence) -> bool {
    lex_less(a.path@, b.path@) || (a.path@ == b.path@ && lex_less(a.kind@, b.kind@))
}

/// Inserts `x` after every piece of evidence that does not come after it.
pub open spec fn slot(s: Seq<Evidence>, x: Evidence) -> Seq<Evidence>
    decreases s.len(),
{
    if s.len() == 0 {
        seq![x]
    } else if evidence_less(x, s[0]) {
        seq![x] + s
    } else {
        seq![s[0]] + slot(s.drop_first(), x)
    }
}

/// The evidence in (path, kind) order, equal ones keeping their order.
pub open spec fn in_order(s: Seq<Evidence>) -> Seq<Evidence>
    decreases s.len(),
{
    if s.len() == 0 {
        Seq::empty()
    } else {
        slot(in_order(s.drop_last()), s.last())
    }
}

proof fn lemma_slot(s: Seq<Evidence>, x: Evidence, p: int)
    requires
        0 <= p <= s.len(),
        forall|j: int| 0 <= j < p ==> !evidence_less(x, #[trigger] s[j]),
        p == s.len() || evidence_less(x, s[p]),
    ensures
        slot(s, x) == s.insert(p, x),
    decreases p,
{
    if p == 0 {
        if s.len() == 0 {
            assert(s.insert(0, x) =~= seq![x]);
        } else {
            assert(s.insert(0, x) =~= seq![x] + s);
        }
    } else {
        lemma_slot(s.drop_first(), x, p - 1);
        assert(s.insert(p, x) =~= seq![s[0]] + s.drop_first().insert(p - 1, x));
    }
}

impl Evidence {
    /// A copy that Verus knows equals the original.
    pub fn duplicate(&self) -> (r: Evidence)
        ensures
            r == *self,
    {
        let digest = match &self.digest {
            Some(d) => Some(d.clone()),
            None => None,
        };
        Evidence { path: self.path.clone(), kind: self.kind.clone(), bytes: self.bytes, mode: self.mode, digest }
    }
}

fn earlier(a: &Evidence, b: &Evidence) -> (r: bool)
    ensures
        r == evidence_less(*a, *b),
{
    if less(a.path.as_str(), b.path.as_str()) {
        return true;
    }
    crate::text::same(a.path.as_str(), b.path.as_str()) && less(a.kind.as_str(), b.kind.as_str())
}

/// Sorts evidence by (path, kind), keeping the order of equal ones.
pub fn sort_evidence(v: &[Evidence]) -> (r: Vec<Evidence>)
    ensures
        r@ == in_order(v@),
{
    let mut out: Vec<Evidence> = Vec::new();
    let mut i: usize = 0;
    proof {
        assert(v@.take(0) =~= Seq::<Evidence>::empty());
    }
    while i < v.len()
        invariant
            i <= v@.len(),
            out@ == in_order(v@.take(i as int)),
        decreases v@.len() - i,
    {
        let x = v[i].duplicate();
        let mut p: usize = 0;
        while p < out.len() && !earlier(&x, &out[p])
            invariant
                p <= out@.len(),
                forall|j: int| 0 <= j < p ==> !evidence_less(x, #[trigger] out@[j]),
            decreases out@.len() - p,
        {
            p = p + 1;
        }
        proof {
            lemma_slot(out@, x, p as int);
            let t = v@.take(i + 1);
            assert(t.drop_last() =~= v@.take(i as int));
            assert(t.last() == v@[i as int]);
        }
        out.insert(p, x);
        i = i + 1;
    }
    proof {
        assert(v@.take(v@.len() as int) =~= v@);
    }
    out
}

pub open spec fn count_fault(label: Seq<char>, wanted: int, found: int) -> Fault {
    ("concord.migration.mismatch"@, label + " count differs: expected "@ + decimal(wanted) + ", found "@ + decimal(found))
}

/// Refuses a migrated count that differs from the census.
pub fn exact(label: &str, wanted: usize, found: usize) -> (r: Result<(), Error>)
    ensures
        wanted == found ==> r is Ok,
        wanted != found ==> (r matches Err(e) && raises(e, count_fault(label@, wanted as int, found as int))),
{
    if wanted == found {
        return Ok(());
    }
    let a = join(label, " count differs: expected ");
    let b = join(a.as_str(), render_usize(wanted).as_str());
    let c = join(b.as_str(), ", found ");
    Err(mismatch(join(c.as_str(), render_usize(found).as_str())))
}

/// A migration mismatch.
pub fn mismatch(message: String) -> (e: Error)
    ensures
        e.coded("concord.migration.mismatch"@),
        e.message@ == message@,
{
    Error::typed("concord.migration.mismatch", message)
}

/// Refuses an activation whose fingerprint is not the staged census's.
pub fn expected(fingerprint: &str, census: &Census) -> (r: Result<(), Error>)
    ensures
        fingerprint@ == census.fingerprint@ ==> r is Ok,
        fingerprint@ != census.fingerprint@ ==> (r matches Err(e) && raises(e, ("concord.migration.expect"@, "activation fingerprint differs from staged Census"@))),
{
    if !crate::text::same(fingerprint, census.fingerprint.as_str()) {
        return Err(Error::said("concord.migration.expect", "activation fingerprint differs from staged Census"));
    }
    Ok(())
}

/// The names a stage must hold, exactly.
pub open spec fn staged(names: Seq<Seq<char>>) -> bool {
    names.len() == 2 && ((names[0] == "estate.sqlite3"@ && names[1] == "sudo"@) || (names[0] == "sudo"@ && names[1] == "estate.sqlite3"@))
}

/// Refuses a stage holding anything but the estate's database and its
/// possession.
pub fn stage_files(names: &Vec<String>) -> (r: Result<(), Error>)
    ensures
        staged(names.deep_view()) ==> r is Ok,
        !staged(names.deep_view()) ==> (r matches Err(e) && raises(e, ("concord.migration.stage"@, "staged estate contains unexpected files"@))),
{
    let ok = names.len() == 2 && ((crate::text::same(names[0].as_str(), "estate.sqlite3") && crate::text::same(names[1].as_str(), "sudo")) || (crate::text::same(names[0].as_str(), "sudo") && crate::text::same(names[1].as_str(), "estate.sqlite3")));
    if !ok {
        return Err(Error::said("concord.migration.stage", "staged estate contains unexpected files"));
    }
    Ok(())
}

/// Refuses a legacy Domain whose registry is not at version 3.
pub fn registry_version(domain: &str, version: u32) -> (r: Result<(), Error>)
    ensures
        version == 3 ==> r is Ok,
        version != 3 ==> (r matches Err(e) && raises(e, ("concord.migration.registry"@, "Domain "@ + domain@ + " needs registry version 3 before estate migration"@))),
{
    if version != 3 {
        let a = join("Domain ", domain);
        return Err(Error::typed("concord.migration.registry", join(a.as_str(), " needs registry version 3 before estate migration")));
    }
    Ok(())
}

/// Refuses an entry of a legacy Task's seat that is neither a declared
/// member nor its memory.
pub fn territory(members: &Vec<String>, name: Option<&str>, path: &str) -> (r: Result<(), Error>)
    ensures
        (name matches Some(n) && (n@ == ".task"@ || exists|i: int| 0 <= i < members@.len() && (#[trigger] members@[i])@ == n@)) ==> r is Ok,
        !(name matches Some(n) && (n@ == ".task"@ || exists|i: int| 0 <= i < members@.len() && (#[trigger] members@[i])@ == n@)) ==> (r matches Err(e) && raises(e, ("concord.migration.territory"@, "unknown Task territory: "@ + path@))),
{
    let known = match name {
        None => false,
        Some(n) => {
            if crate::text::same(n, ".task") {
                true
            } else {
                let mut found = false;
                let mut i: usize = 0;
                while i < members.len()
                    invariant
                        i <= members@.len(),
                        found == exists|j: int| 0 <= j < i && (#[trigger] members@[j])@ == n@,
                    decreases members@.len() - i,
                {
                    if crate::text::same(members[i].as_str(), n) {
                        found = true;
                    }
                    i = i + 1;
                }
                found
            }
        },
    };
    if !known {
        return Err(Error::typed("concord.migration.territory", join("unknown Task territory: ", path)));
    }
    Ok(())
}

/// What `Path::strip_prefix` leaves of `path` once `base` is taken from
/// its front, component by component, as text; nothing where `base` is
/// not a prefix of `path`.
pub uninterp spec fn stripped(path: Seq<char>, base: Seq<char>) -> Option<Seq<char>>;

/// `std::path::Path::strip_prefix` on paths given as text: the rest of
/// `path` below `base`, or nothing where `base` is not its prefix.  What
/// the rest is, is the name above.
#[verifier::external_body]
fn strip_prefix(path: &str, base: &str) -> (r: Option<String>)
    ensures
        match r {
            Some(s) => stripped(path@, base@) == Some(s@),
            None => stripped(path@, base@) is None,
        },
{
    match std::path::Path::new(path).strip_prefix(base) {
        Ok(rest) => Some(rest.to_string_lossy().into_owned()),
        Err(_) => None,
    }
}

/// The text with every backslash written as a slash.
pub open spec fn slashed(s: Seq<char>) -> Seq<char> {
    s.map_values(|c: char| if c == '\\' { '/' } else { c })
}

fn forward(text: &str) -> (r: String)
    ensures
        r@ == slashed(text@),
{
    let n = text.unicode_len();
    let mut acc = String::new();
    let mut i: usize = 0;
    while i < n
        invariant
            n == text@.len(),
            i <= n,
            acc@ == slashed(text@.take(i as int)),
        decreases n - i,
    {
        let c = text.get_char(i);
        let piece = if c == '\\' {
            "/"
        } else {
            text.substring_char(i, i + 1)
        };
        proof {
            reveal_strlit("/");
            assert(piece@ =~= seq![if c == '\\' { '/' } else { c }]);
        }
        acc = join(acc.as_str(), piece);
        proof {
            assert(slashed(text@.take(i + 1)) =~= slashed(text@.take(i as int)) + seq![if c == '\\' { '/' } else { c }]);
        }
        i = i + 1;
    }
    proof {
        assert(text@.take(n as int) =~= text@);
    }
    acc
}

/// The path of a piece of evidence relative to the Space, with forward
/// slashes; refused where it lies outside the Space.
pub fn relative(space: &str, path: &str) -> (r: Result<String, Error>)
    ensures
        match stripped(path@, space@) {
            None => r matches Err(e) && raises(e, ("concord.migration.path"@, "evidence lies outside Space: "@ + path@)),
            Some(s) => r matches Ok(t) && t@ == slashed(s),
        },
{
    match strip_prefix(path, space) {
        None => Err(Error::typed("concord.migration.path", join("evidence lies outside Space: ", path))),
        Some(rest) => Ok(forward(rest.as_str())),
    }
}

/// The refusal of a filesystem entry that a migration cannot model.
pub fn foreign(path: &str) -> (e: Error)
    ensures
        raises(e, ("concord.migration.territory"@, "migration cannot model filesystem entry: "@ + path@)),
{
    Error::typed("concord.migration.territory", join("migration cannot model filesystem entry: ", path))
}

/// What stands at a path as a census sees it: a file and its content, a
/// link and the bytes of its target, a directory, or anything else.
#[derive(Clone, Debug, PartialEq, Eq)]
pub enum Holding {
    File(Vec<u8>),
    Link(Vec<u8>),
    Directory,
    Other,
}

/// The evidence kind a walk records for what stands at a path, as
/// `label-link`, `label-file` or `label-directory`; refused for a link
/// where links are not allowed, and for anything but these three.
pub open spec fn walked(path: Seq<char>, label: Seq<char>, links: bool, holding: Holding) -> Result<Seq<char>, Fault> {
    match holding {
        Holding::Link(_) => if links {
            Ok(label + "-link"@)
        } else {
            Err(("concord.migration.territory"@, "migration cannot model filesystem entry: "@ + path))
        },
        Holding::File(_) => Ok(label + "-file"@),
        Holding::Directory => Ok(label + "-directory"@),
        Holding::Other => Err(("concord.migration.territory"@, "migration cannot model filesystem entry: "@ + path)),
    }
}

/// The kind of evidence a walk records at a path.
pub fn walk_kind(path: &str, label: &str, links: bool, holding: &Holding) -> (r: Result<String, Error>)
    ensures
        match walked(path@, label@, links, *holding) {
            Ok(k) => r matches Ok(s) && s@ == k,
            Err(f) => r matches Err(e) && raises(e, f),
        },
{
    match holding {
        Holding::Link(_) => {
            if links {
                Ok(join(label, "-link"))
            } else {
                Err(foreign(path))
            }
        },
        Holding::File(_) => Ok(join(label, "-file")),
        Holding::Directory => Ok(join(label, "-directory")),
        Holding::Other => Err(foreign(path)),
    }
}

/// The size and digest a piece of evidence records: a file's length and
/// the digest of its content, a link's target length and the digest of its
/// bytes, nothing for a directory.
pub open spec fn measured(holding: Holding) -> (u64, Option<Seq<char>>) {
    match holding {
        Holding::File(c) => (c@.len() as u64, Some(hex(sha256(c@)))),
        Holding::Link(t) => (t@.len() as u64, Some(hex(sha256(t@)))),
        _ => (0, None),
    }
}

/// The permission bits of a mode.
pub open spec fn permission_bits(mode: Option<u32>) -> Option<u32> {
    match mode {
        Some(m) => Some(m & 0o777),
        None => None,
    }
}

/// The evidence of one path of the Space: its path relative to the Space,
/// its kind, its size and digest, and the permission bits of its mode
/// where the platform has one.  Refused for what is neither a file, a link
/// nor a directory, and for a path outside the Space.
pub fn one(space: &str, path: &str, kind: &str, holding: &Holding, mode: Option<u32>) -> (r: Result<Evidence, Error>)
    requires
        match *holding {
            Holding::File(c) => c@.len() <= u64::MAX,
            Holding::Link(t) => t@.len() <= u64::MAX,
            _ => true,
        },
    ensures
        holding is Other ==> (r matches Err(e) && raises(e, ("concord.migration.territory"@, "migration cannot model filesystem entry: "@ + path@))),
        !(holding is Other) ==> match stripped(path@, space@) {
            None => r matches Err(e) && raises(e, ("concord.migration.path"@, "evidence lies outside Space: "@ + path@)),
            Some(s) => r matches Ok(ev) && {
                &&& ev.path@ == slashed(s)
                &&& ev.kind@ == kind@
                &&& ev.bytes == measured(*holding).0
                &&& match ev.digest {
                    Some(d) => measured(*holding).1 == Some(d@),
                    None => measured(*holding).1 is None,
                }
                &&& ev.mode == permission_bits(mode)
            },
        },
{
    let (bytes, digest) = match holding {
        Holding::File(content) => {
            let d = digest(content.as_slice());
            (content.len() as u64, Some(render_hex(d.as_slice())))
        },
        Holding::Link(target) => {
            let d = digest(target.as_slice());
            (target.len() as u64, Some(render_hex(d.as_slice())))
        },
        Holding::Directory => (0u64, None),
        Holding::Other => {
            return Err(foreign(path));
        },
    };
    let at = relative(space, path)?;
    let bits = match mode {
        Some(m) => Some(m & 0o777),
        None => None,
    };
    Ok(Evidence { path: at, kind: String::from_str(kind), bytes, mode: bits, digest })
}

/// The names a legacy memory directory may hold.
pub open spec fn memory_name(name: Seq<char>) -> bool {
    name == "MAIN.md"@ || name == "phases"@ || name == "resources"@
}

/// Refuses an entry of a legacy memory directory other than its MAIN,
/// phases and resources; `name` is the entry's name where it is UTF-8.
pub fn memory_territory(name: Option<&str>, path: &str) -> (r: Result<(), Error>)
    ensures
        (name matches Some(n) && memory_name(n@)) ==> r is Ok,
        !(name matches Some(n) && memory_name(n@)) ==> (r matches Err(e) && raises(e, ("concord.migration.territory"@, "unknown memory territory: "@ + path@))),
{
    let known = match name {
        Some(n) => crate::text::same(n, "MAIN.md") || crate::text::same(n, "phases") || crate::text::same(n, "resources"),
        None => false,
    };
    if !known {
        return Err(Error::typed("concord.migration.territory", join("unknown memory territory: ", path)));
    }
    Ok(())
}

} // verus!
