use std::collections::HashSet;

use vstd::prelude::*;
use vstd::string::{StrSliceExecFns, StringExecFns, StringSliceAdditionalSpecFns};

use crate::error::Error;
use crate::search::{match_id_hash_slice_u16, spec_hash_u16};
use crate::utils::str_parse::{hex_digit, hex_value, parse_match_str, spec_parse_from, spec_parse_hex_u8, spec_parse_match_str};

verus! {

/// A header or footer pattern: byte values, with 0x8000 matching any byte.
#[derive(Debug, PartialEq, Clone)]
pub struct MatchString {
    inner: Vec<u16>,
}

impl View for MatchString {
    type V = Seq<u16>;

    closed spec fn view(&self) -> Seq<u16> {
        self.inner@
    }
}

impl MatchString {
    /// Parses a pattern string (see `parse_match_str`).
    pub fn from(value: &str) -> (m: Self)
        ensures
            m@ == spec_parse_match_str(value.spec_bytes()),
    {
        MatchString { inner: parse_match_str(value) }
    }

    /// A pattern with the given values.
    pub fn from_values(values: Vec<u16>) -> (m: Self)
        ensures
            m@ == values@,
    {
        MatchString { inner: values }
    }

    /// The pattern written back as a pattern string: each value as a `\\x` escape with (at
    /// least two) lowercase hexadecimal digits, the match-all value as '.'.
    pub fn to_string(&self) -> (s: String)
        ensures
            s@ == render_values(self@),
    {
        let mut s = String::new();
        let mut i: usize = 0;
        while i < self.inner.len()
            invariant
                i <= self.inner@.len(),
                s@ == render_values(self.inner@.take(i as int)),
            decreases self.inner@.len() - i,
        {
            let e = self.inner[i];
            let ghost before = s@;
            if e == 0x8000 {
                s.append(".");
                proof {
                    reveal_strlit(".");
                }
            } else {
                s.append("\\x");
                proof {
                    reveal_strlit("\\x");
                }
                if e >= 0x1000 {
                    push_hex_digit(&mut s, e / 0x1000);
                }
                if e >= 0x100 {
                    push_hex_digit(&mut s, e / 0x100 % 16);
                }
                push_hex_digit(&mut s, e / 16 % 16);
                push_hex_digit(&mut s, e % 16);
                assert(e < 0x100 ==> e / 16 % 16 == e / 16);
            }
            assert(s@ =~= before + render_value(e));
            assert(self.inner@.take(i + 1).drop_last() =~= self.inner@.take(i as int));
            i += 1;
        }
        assert(self.inner@.take(i as int) =~= self.inner@);
        s
    }

    /// The pattern's values.
    pub fn as_slice(&self) -> (s: &[u16])
        ensures
            s@ == self@,
    {
        self.inner.as_slice()
    }

    /// The number of values in the pattern.
    pub fn len(&self) -> (n: usize)
        ensures
            n == self@.len(),
    {
        self.inner.len()
    }
}

/// The lowercase hexadecimal digit for `d` (below 16).
pub open spec fn hex_char(d: u16) -> char {
    if d < 10 {
        (0x30 + d) as char
    } else {
        (0x61 + d - 10) as char
    }
}

/// A value in lowercase hexadecimal, with at least two digits.
pub open spec fn hex_text(e: u16) -> Seq<char> {
    if e < 0x100 {
        seq![hex_char(e / 16), hex_char(e % 16)]
    } else if e < 0x1000 {
        seq![hex_char(e / 0x100), hex_char(e / 16 % 16), hex_char(e % 16)]
    } else {
        seq![hex_char(e / 0x1000), hex_char(e / 0x100 % 16), hex_char(e / 16 % 16), hex_char(e % 16)]
    }
}

/// How one pattern value is written in a pattern string: '.' for the match-all value, else
/// `\x` and its hexadecimal digits.
pub open spec fn render_value(e: u16) -> Seq<char> {
    if e == 0x8000 {
        seq!['.']
    } else {
        seq!['\\', 'x'] + hex_text(e)
    }
}

/// A pattern written back as a pattern string, value by value.
pub open spec fn render_values(vs: Seq<u16>) -> Seq<char>
    decreases vs.len(),
{
    if vs.len() == 0 {
        Seq::empty()
    } else {
        render_values(vs.drop_last()) + render_value(vs.last())
    }
}

/// Each character of an ASCII text as a cluster of its one byte.
pub open spec fn ascii_clusters(cs: Seq<char>) -> Seq<Seq<u8>> {
    Seq::new(cs.len(), |i: int| seq![cs[i] as u8])
}

proof fn lemma_hex_char_digit(d: u16)
    requires
        d < 16,
    ensures
        hex_digit(hex_char(d) as u8) == Some(d as u8),
        hex_char(d) as u8 != 0x2b,
{
    if d < 10 {
        assert(hex_char(d) as u8 == 0x30 + d);
    } else {
        assert(hex_char(d) as u8 == 0x61 + d - 10);
    }
}

proof fn lemma_hex_pair(e: u16)
    requires
        e <= 0xff,
    ensures
        spec_parse_hex_u8(seq![hex_char(e / 16) as u8, hex_char(e % 16) as u8]) == Some(e as u8),
{
    let a = hex_char(e / 16) as u8;
    let b = hex_char(e % 16) as u8;
    let s = seq![a, b];
    lemma_hex_char_digit(e / 16);
    lemma_hex_char_digit(e % 16);
    assert(s.drop_last() =~= seq![a]);
    assert(seq![a].drop_last() =~= Seq::<u8>::empty());
    assert(seq![a].last() == a);
    assert(s.last() == b);
    assert(hex_value(Seq::<u8>::empty()) == Some(0nat));
    assert(hex_value(seq![a]) == Some((e / 16) as nat));
    assert(hex_value(s) == Some(((e / 16) * 16 + e % 16) as nat));
}

proof fn lemma_single_ne(a: u8, b: u8)
    requires
        a != b,
    ensures
        seq![a] != seq![b],
{
    assert(seq![a][0] != seq![b][0]);
}

/// Writing patterns one after another writes each in turn.
proof fn lemma_render_concat(a: Seq<u16>, b: Seq<u16>)
    ensures
        render_values(a + b) == render_values(a) + render_values(b),
    decreases b.len(),
{
    if b.len() == 0 {
        assert(a + b =~= a);
        assert(render_values(a) + render_values(b) =~= render_values(a));
    } else {
        lemma_render_concat(a, b.drop_last());
        assert((a + b).drop_last() =~= a + b.drop_last());
        assert((a + b).last() == b.last());
        assert(render_values(a + b) =~= render_values(a) + render_values(b));
    }
}

proof fn lemma_parse_rendered_from(vs: Seq<u16>, k: int)
    requires
        forall|x: int| 0 <= x < vs.len() ==> #[trigger] vs[x] <= 0xff || vs[x] == 0x8000,
        0 <= k <= vs.len(),
    ensures
        spec_parse_from(ascii_clusters(render_values(vs)), render_values(vs.take(k)).len() as int, false)
            == vs.skip(k),
    decreases vs.len() - k,
{
    let g = ascii_clusters(render_values(vs));
    let p = render_values(vs.take(k)).len() as int;
    lemma_render_concat(vs.take(k), vs.skip(k));
    assert(vs.take(k) + vs.skip(k) =~= vs);
    if k == vs.len() {
        assert(vs.skip(k) =~= Seq::<u16>::empty());
        assert(vs.take(k) =~= vs);
        assert(p == g.len());
    } else {
        let e = vs[k];
        let rest = vs.skip(k + 1);
        assert(vs.skip(k) =~= seq![e] + rest);
        lemma_render_concat(seq![e], rest);
        assert(seq![e].drop_last() =~= Seq::<u16>::empty());
        assert(seq![e].last() == e);
        assert(render_values(Seq::<u16>::empty()) =~= Seq::<char>::empty());
        assert(render_values(seq![e]) =~= render_value(e));
        assert(vs.take(k + 1).drop_last() =~= vs.take(k));
        assert(render_values(vs.take(k + 1)) == render_values(vs.take(k)) + render_value(e));
        let rv = render_value(e);
        let full = render_values(vs);
        assert(full =~= render_values(vs.take(k)) + rv + render_values(rest));
        assert forall|t: int| 0 <= t < rv.len() implies #[trigger] g[p + t] == seq![rv[t] as u8] by {
            assert(full[p + t] == rv[t]);
        }
        lemma_parse_rendered_from(vs, k + 1);
        if e == 0x8000 {
            assert(g[p] == seq![0x2eu8]);
            lemma_single_ne(0x2e, 0x5c);
            assert(spec_parse_from(g, p, false) == seq![0x8000u16] + spec_parse_from(g, p + 1, false));
            assert(vs.skip(k) =~= seq![0x8000u16] + vs.skip(k + 1));
        } else {
            assert(e <= 0xff);
            assert(rv.len() == 4);
            assert(g[p] == seq![0x5cu8]);
            assert(g[p + 1] == seq![0x78u8]);
            lemma_single_ne(0x78, 0x5c);
            lemma_single_ne(0x78, 0x6e);
            lemma_single_ne(0x78, 0x74);
            lemma_single_ne(0x78, 0x72);
            lemma_single_ne(0x78, 0x30);
            lemma_single_ne(0x78, 0x2e);
            lemma_hex_pair(e);
            assert(g[p + 2] + g[p + 3] =~= seq![hex_char(e / 16) as u8, hex_char(e % 16) as u8]);
            assert(spec_parse_from(g, p, false) == spec_parse_from(g, p + 1, true));
            assert(spec_parse_from(g, p + 1, true) == seq![(e as u8) as u16] + spec_parse_from(g, p + 4, false));
            assert(vs.skip(k) =~= seq![(e as u8) as u16] + vs.skip(k + 1));
        }
    }
}

/// A pattern of byte values and match-all values, written back as a pattern string and parsed
/// again character by character (each character a cluster, as `parse_graphemes` takes them), is
/// the same pattern.
pub proof fn lemma_written_pattern_parses_back(vs: Seq<u16>)
    requires
        forall|x: int| 0 <= x < vs.len() ==> #[trigger] vs[x] <= 0xff || vs[x] == 0x8000,
    ensures
        spec_parse_from(ascii_clusters(render_values(vs)), 0, false) == vs,
{
    lemma_parse_rendered_from(vs, 0);
    assert(vs.take(0) =~= Seq::<u16>::empty());
    assert(vs.skip(0) =~= vs);
}

/// Appends the hexadecimal digit for `d`.
fn push_hex_digit(s: &mut String, d: u16)
    requires
        d < 16,
    ensures
        final(s)@ == old(s)@.push(hex_char(d)),
{
    let digits = "0123456789abcdef";
    proof {
        reveal_strlit("0123456789abcdef");
    }
    let one = digits.substring_char(d as usize, d as usize + 1);
    assert(one@ =~= seq![hex_char(d)]);
    s.append(one);
}

/// The file formats the library has validators for.
#[derive(Debug, PartialEq, Eq, Hash, Clone, Copy, Structural)]
pub enum FileTypeId {
    Unknown,
    Jpeg,
    Png,
    Zip,
}

impl FileTypeId {
    /// The lowercase name of the format.
    pub fn to_str(&self) -> (s: &'static str)
        ensures
            s@ == match self {
                FileTypeId::Unknown => "unknown"@,
                FileTypeId::Jpeg => "jpeg"@,
                FileTypeId::Png => "png"@,
                FileTypeId::Zip => "zip"@,
            },
    {
        match self {
            FileTypeId::Unknown => "unknown",
            FileTypeId::Jpeg => "jpeg",
            FileTypeId::Png => "png",
            FileTypeId::Zip => "zip",
        }
    }
}

impl Default for FileTypeId {
    fn default() -> (r: Self)
        ensures
            r == FileTypeId::Unknown,
    {
        FileTypeId::Unknown
    }
}

/// How headers are paired with footers: with the next footer, or with the last footer in range.
#[derive(Debug, PartialEq, Eq, Clone, Copy, Structural)]
pub enum PairingStrategy {
    PairNext,
    PairLast,
}

impl Default for PairingStrategy {
    fn default() -> (r: Self)
        ensures
            r == PairingStrategy::PairNext,
    {
        PairingStrategy::PairNext
    }
}

/// A configured file type.
#[derive(Debug, PartialEq)]
pub struct FileType {
    pub headers: Vec<MatchString>,
    pub footers: Vec<MatchString>,
    pub extension: Option<String>,
    pub type_id: FileTypeId,
    pub pairing: PairingStrategy,
    pub max_len: Option<u64>,
    pub requires_footer: bool,
}

impl Default for FileType {
    fn default() -> (r: Self)
        ensures
            r.headers@.len() == 0,
            r.footers@.len() == 0,
            r.extension is None,
            r.type_id == FileTypeId::Unknown,
            r.pairing == PairingStrategy::PairNext,
            r.max_len is None,
            !r.requires_footer,
    {
        FileType {
            headers: Vec::new(),
            footers: Vec::new(),
            extension: None,
            type_id: FileTypeId::Unknown,
            pairing: PairingStrategy::PairNext,
            max_len: None,
            requires_footer: false,
        }
    }
}

impl FileType {
    pub open spec fn spec_has_footer(&self) -> bool {
        self.footers@.len() != 0
    }

    /// Whether any footer is configured.
    pub fn has_footer(&self) -> (b: bool)
        ensures
            b == self.spec_has_footer(),
    {
        self.footers.len() != 0
    }

    /// The type can be completed: it has a footer, or a maximum length and no requirement for a
    /// footer.
    pub open spec fn consistent(&self) -> bool {
        &&& (self.spec_has_footer() || self.max_len is Some)
        &&& (self.spec_has_footer() || !self.requires_footer)
    }
}

/// The library's configuration.
#[derive(Debug)]
pub struct SearchlightConfig {
    pub max_reconstruction_search_len: Option<u64>,
    pub file_types: Vec<FileType>,
}

impl Default for SearchlightConfig {
    fn default() -> (r: Self)
        ensures
            r.max_reconstruction_search_len is None,
            r.file_types@.len() == 0,
    {
        SearchlightConfig { max_reconstruction_search_len: None, file_types: Vec::new() }
    }
}

/// The values of a list of patterns.
pub open spec fn pattern_values(ms: Seq<MatchString>) -> Seq<Seq<u16>> {
    ms.map_values(|m: MatchString| m@)
}

/// All header and footer patterns of the file types, in order: per type, headers then footers.
pub open spec fn all_patterns(fts: Seq<FileType>) -> Seq<Seq<u16>>
    decreases fts.len(),
{
    if fts.len() == 0 {
        Seq::empty()
    } else {
        all_patterns(fts.drop_last()) + pattern_values(fts.last().headers@) + pattern_values(
            fts.last().footers@,
        )
    }
}

/// Two distinct patterns of the list have the same match id.
pub open spec fn has_id_collision(ps: Seq<Seq<u16>>) -> bool {
    exists|a: int, b: int|
        0 <= a < b < ps.len() && #[trigger] spec_hash_u16(ps[a]) == #[trigger] spec_hash_u16(ps[b])
}

/// The match ids of a list of patterns.
pub open spec fn id_set(ps: Seq<Seq<u16>>) -> Set<u64> {
    Set::new(|h: u64| exists|a: int| 0 <= a < ps.len() && spec_hash_u16(ps[a]) == h)
}

/// The configuration is valid: every file type is consistent and all patterns have distinct ids.
pub open spec fn config_valid(fts: Seq<FileType>) -> bool {
    &&& forall|i: int| 0 <= i < fts.len() ==> (#[trigger] fts[i]).consistent()
    &&& !has_id_collision(all_patterns(fts))
}

proof fn lemma_collision_push(ps: Seq<Seq<u16>>, p: Seq<u16>)
    ensures
        has_id_collision(ps.push(p)) == (has_id_collision(ps) || id_set(ps).contains(
            spec_hash_u16(p),
        )),
        id_set(ps.push(p)) == id_set(ps).insert(spec_hash_u16(p)),
{
    let q = ps.push(p);
    if has_id_collision(q) {
        let (a, b) = choose|a: int, b: int|
            0 <= a < b < q.len() && #[trigger] spec_hash_u16(q[a]) == #[trigger] spec_hash_u16(
                q[b],
            );
        if b < ps.len() {
            assert(spec_hash_u16(ps[a]) == spec_hash_u16(ps[b]));
        } else {
            assert(spec_hash_u16(ps[a]) == spec_hash_u16(p));
        }
    }
    if has_id_collision(ps) {
        let (a, b) = choose|a: int, b: int|
            0 <= a < b < ps.len() && #[trigger] spec_hash_u16(ps[a]) == #[trigger] spec_hash_u16(
                ps[b],
            );
        assert(spec_hash_u16(q[a]) == spec_hash_u16(q[b]));
    }
    if id_set(ps).contains(spec_hash_u16(p)) {
        let a = choose|a: int| 0 <= a < ps.len() && spec_hash_u16(ps[a]) == spec_hash_u16(p);
        assert(spec_hash_u16(q[a]) == spec_hash_u16(q[ps.len() as int]));
    }
    assert forall|h: u64| id_set(q).contains(h) == id_set(ps).insert(spec_hash_u16(p)).contains(h) by {
        if id_set(ps).contains(h) {
            let a = choose|a: int| 0 <= a < ps.len() && spec_hash_u16(ps[a]) == h;
            assert(q[a] == ps[a]);
        }
        if h == spec_hash_u16(p) {
            assert(q[ps.len() as int] == p);
            assert(0 <= ps.len() < q.len() && spec_hash_u16(q[ps.len() as int]) == h);
        }
        if id_set(q).contains(h) {
            let a = choose|a: int| 0 <= a < q.len() && spec_hash_u16(q[a]) == h;
            if a < ps.len() {
                assert(q[a] == ps[a]);
            }
        }
    }
    assert(id_set(q) =~= id_set(ps).insert(spec_hash_u16(p)));
}

/// Records the ids of `pats` in `seen`, returning whether a collision has been seen so far.
fn note_ids(
    seen: &mut HashSet<u64>,
    collision: bool,
    pats: &Vec<MatchString>,
    Ghost(done): Ghost<Seq<Seq<u16>>>,
) -> (c: bool)
    requires
        old(seen)@ == id_set(done),
        collision == has_id_collision(done),
    ensures
        final(seen)@ == id_set(done + pattern_values(pats@)),
        c == has_id_collision(done + pattern_values(pats@)),
{
    let mut collision = collision;
    let mut k: usize = 0;
    while k < pats.len()
        invariant
            k <= pats@.len(),
            seen@ == id_set(done + pattern_values(pats@.take(k as int))),
            collision == has_id_collision(done + pattern_values(pats@.take(k as int))),
        decreases pats@.len() - k,
    {
        let ghost before = done + pattern_values(pats@.take(k as int));
        let id = match_id_hash_slice_u16(pats[k].as_slice());
        proof {
            lemma_collision_push(before, pats@[k as int]@);
            assert(done + pattern_values(pats@.take(k + 1)) =~= before.push(pats@[k as int]@));
        }
        let inserted = seen.insert(id);
        if !inserted {
            collision = true;
        }
        k += 1;
    }
    assert(pats@.take(k as int) =~= pats@);
    collision
}

impl SearchlightConfig {
    /// Checks the configuration: every file type must have a footer or a maximum length, a type
    /// without footers must not require one, and no two header/footer patterns may share a
    /// match id. Returns `ConfigValidationError` exactly when a check fails.
    pub fn validate(&self) -> (r: Result<(), Error>)
        ensures
            r is Ok <==> config_valid(self.file_types@),
            r matches Err(e) ==> e == Error::ConfigValidationError,
    {
        let mut error = false;
        let mut i: usize = 0;
        while i < self.file_types.len()
            invariant
                i <= self.file_types@.len(),
                !error <==> forall|a: int| 0 <= a < i ==> (#[trigger] self.file_types@[a]).consistent(),
            decreases self.file_types@.len() - i,
        {
            let ft = &self.file_types[i];
            if !ft.has_footer() && ft.max_len.is_none() {
                error = true;
            }
            if !ft.has_footer() && ft.requires_footer {
                error = true;
            }
            i += 1;
        }
        let mut seen: HashSet<u64> = HashSet::new();
        let mut collision = false;
        let ghost fts = self.file_types@;
        let mut i: usize = 0;
        assert(id_set(Seq::empty()) =~= Set::<u64>::empty());
        while i < self.file_types.len()
            invariant
                fts == self.file_types@,
                i <= fts.len(),
                seen@ == id_set(all_patterns(fts.take(i as int))),
                collision == has_id_collision(all_patterns(fts.take(i as int))),
            decreases fts.len() - i,
        {
            let ghost done = all_patterns(fts.take(i as int));
            let ft = &self.file_types[i];
            collision = note_ids(&mut seen, collision, &ft.headers, Ghost(done));
            let ghost done2 = done + pattern_values(ft.headers@);
            collision = note_ids(&mut seen, collision, &ft.footers, Ghost(done2));
            assert(fts.take(i + 1).drop_last() =~= fts.take(i as int));
            i += 1;
        }
        assert(fts.take(i as int) =~= fts);
        if error || collision {
            Err(Error::ConfigValidationError)
        } else {
            Ok(())
        }
    }
}

} // verus!
