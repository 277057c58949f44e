//! The line classifier and the extraction of one compilation unit.

use vstd::prelude::*;
use crate::bytes::{
    append_bytes, lemma_prefix_first, lemma_prefix_parts, copy_range, find_next, has_prefix,
    lemma_next_index_bounds, next_index, starts_with, strip_prefix,
    strip_suffix, trim_start, trimmed, without_prefix, without_suffix,
};

verus! {

pub open spec fn kw_import() -> Seq<u8> {
    seq![0x69u8, 0x6Du8, 0x70u8, 0x6Fu8, 0x72u8, 0x74u8]
}

pub open spec fn kw_import_static() -> Seq<u8> {
    kw_import() + seq![0x20u8, 0x73u8, 0x74u8, 0x61u8, 0x74u8, 0x69u8, 0x63u8]
}

pub open spec fn kw_package() -> Seq<u8> {
    seq![0x70u8, 0x61u8, 0x63u8, 0x6Bu8, 0x61u8, 0x67u8, 0x65u8]
}

pub open spec fn kw_at() -> Seq<u8> {
    seq![0x40u8]
}

pub open spec fn kw_comment() -> Seq<u8> {
    seq![0x2Fu8, 0x2Fu8]
}

pub open spec fn kw_public() -> Seq<u8> {
    seq![0x70u8, 0x75u8, 0x62u8, 0x6Cu8, 0x69u8, 0x63u8]
}

pub open spec fn kw_public_interface() -> Seq<u8> {
    kw_public() + seq![0x20u8, 0x69u8, 0x6Eu8, 0x74u8, 0x65u8, 0x72u8, 0x66u8, 0x61u8, 0x63u8, 0x65u8]
}

pub open spec fn kw_public_class() -> Seq<u8> {
    kw_public() + seq![0x20u8, 0x63u8, 0x6Cu8, 0x61u8, 0x73u8, 0x73u8]
}

pub open spec fn kw_public_enum() -> Seq<u8> {
    kw_public() + seq![0x20u8, 0x65u8, 0x6Eu8, 0x75u8, 0x6Du8]
}

/// The standard-library namespace prefix: imports under it are foreign.
pub open spec fn kw_java() -> Seq<u8> {
    seq![0x6Au8, 0x61u8, 0x76u8, 0x61u8]
}

/// The source file extension, dot included.
pub open spec fn dot_java() -> Seq<u8> {
    seq![0x2Eu8] + kw_java()
}

pub open spec fn semicolon() -> Seq<u8> {
    seq![0x3Bu8]
}

pub open spec fn newline() -> Seq<u8> {
    seq![0x0Au8]
}

/// The `n`-th piece of `s[i..]` split on the space byte.
pub open spec fn field_from(s: Seq<u8>, i: int, n: nat) -> Option<Seq<u8>>
    decreases n,
{
    let j = next_index(s, 0x20u8, i);
    if n == 0 {
        Some(s.subrange(i, j))
    } else if j >= s.len() {
        None
    } else {
        field_from(s, j + 1, (n - 1) as nat)
    }
}

/// The `n`-th space-separated token of a line, one trailing `;` removed.
pub open spec fn token(s: Seq<u8>, n: nat) -> Option<Seq<u8>> {
    match field_from(s, 0, n) {
        Some(t) => Some(without_suffix(t, semicolon())),
        None => None,
    }
}

/// The syntactic category of one line, with its payload.
pub enum LineKind {
    StaticImport(Seq<u8>),
    Import(Seq<u8>),
    Package(Seq<u8>),
    Decorater,
    Comment,
    Other(Seq<u8>),
    Visibility(Seq<u8>),
}

/// Whether the line, leading spaces aside, opens a public type declaration.
pub open spec fn opens_public_type(line: Seq<u8>) -> bool {
    has_prefix(trimmed(line), kw_public_interface()) || has_prefix(trimmed(line), kw_public_class())
        || has_prefix(trimmed(line), kw_public_enum())
}

/// The category of a line, first match winning; `None` where a directive
/// lacks the token it needs.
pub open spec fn classify(line: Seq<u8>) -> Option<LineKind> {
    if has_prefix(line, kw_import_static()) {
        match token(line, 2) {
            Some(t) => Some(LineKind::StaticImport(t)),
            None => None,
        }
    } else if has_prefix(line, kw_import()) {
        match token(line, 1) {
            Some(t) => Some(LineKind::Import(t)),
            None => None,
        }
    } else if has_prefix(line, kw_package()) {
        match token(line, 1) {
            Some(t) => Some(LineKind::Package(t)),
            None => None,
        }
    } else if has_prefix(trimmed(line), kw_at()) {
        Some(LineKind::Decorater)
    } else if has_prefix(trimmed(line), kw_comment()) {
        Some(LineKind::Comment)
    } else if opens_public_type(line) {
        Some(LineKind::Visibility(without_prefix(trimmed(line), kw_public())))
    } else {
        Some(LineKind::Other(line))
    }
}

/// Classifying a body line again leaves it as it is: a kept line, or the
/// text of a public declaration with `public` taken off, is "other" text.
pub proof fn lemma_body_line_stable(line: Seq<u8>)
    ensures
        match classify(line) {
            Some(LineKind::Other(x)) => classify(x) == Some(LineKind::Other(x)),
            Some(LineKind::Visibility(x)) => classify(x) == Some(LineKind::Other(x)),
            _ => true,
        },
{
    if let Some(LineKind::Visibility(x)) = classify(line) {
        let t = trimmed(line);
        let ti = seq![0x20u8, 0x69u8, 0x6Eu8, 0x74u8, 0x65u8, 0x72u8, 0x66u8, 0x61u8, 0x63u8, 0x65u8];
        let tc = seq![0x20u8, 0x63u8, 0x6Cu8, 0x61u8, 0x73u8, 0x73u8];
        let te = seq![0x20u8, 0x65u8, 0x6Eu8, 0x75u8, 0x6Du8];
        if has_prefix(t, kw_public_interface()) {
            lemma_prefix_parts(t, kw_public(), ti);
            assert(t[kw_public().len() + (0 as int)] == ti[0] && t[kw_public().len() + (1 as int)] == ti[1]);
        } else if has_prefix(t, kw_public_class()) {
            lemma_prefix_parts(t, kw_public(), tc);
            assert(t[kw_public().len() + (0 as int)] == tc[0] && t[kw_public().len() + (1 as int)] == tc[1]);
        } else {
            lemma_prefix_parts(t, kw_public(), te);
            assert(t[kw_public().len() + (0 as int)] == te[0] && t[kw_public().len() + (1 as int)] == te[1]);
        }
        assert(x == t.subrange(6, t.len() as int));
        assert(x[0] == 0x20u8);
        let c = x[1];
        assert(c == 0x69u8 || c == 0x63u8 || c == 0x65u8);
        let y = x.drop_first();
        assert(y[0] == c);
        assert(trimmed(y) == y);
        assert(trimmed(x) == y);
        if has_prefix(x, kw_import_static()) {
            lemma_prefix_first(x, kw_import_static());
        }
        if has_prefix(x, kw_import()) {
            lemma_prefix_first(x, kw_import());
        }
        if has_prefix(x, kw_package()) {
            lemma_prefix_first(x, kw_package());
        }
        if has_prefix(y, kw_at()) {
            lemma_prefix_first(y, kw_at());
        }
        if has_prefix(y, kw_comment()) {
            lemma_prefix_first(y, kw_comment());
        }
        if has_prefix(y, kw_public_interface()) {
            lemma_prefix_first(y, kw_public_interface());
        }
        if has_prefix(y, kw_public_class()) {
            lemma_prefix_first(y, kw_public_class());
        }
        if has_prefix(y, kw_public_enum()) {
            lemma_prefix_first(y, kw_public_enum());
        }
    }
}

/// A directive line lacks the token that its keyword calls for.
#[derive(Debug, Clone, Copy, PartialEq, Eq, Structural)]
pub enum ParseError {
    MissingToken,
}

/// One classified line.
#[derive(Debug)]
pub enum LineAST {
    StaticImport(Vec<u8>),
    Import(Vec<u8>),
    Package(Vec<u8>),
    Decorater,
    Comment,
    Other(Vec<u8>),
    Visibility(Vec<u8>),
}

impl View for LineAST {
    type V = LineKind;

    open spec fn view(&self) -> LineKind {
        match self {
            LineAST::StaticImport(x) => LineKind::StaticImport(x@),
            LineAST::Import(x) => LineKind::Import(x@),
            LineAST::Package(x) => LineKind::Package(x@),
            LineAST::Decorater => LineKind::Decorater,
            LineAST::Comment => LineKind::Comment,
            LineAST::Other(x) => LineKind::Other(x@),
            LineAST::Visibility(x) => LineKind::Visibility(x@),
        }
    }
}

/// The `n`-th space-separated token of `line`, one trailing `;` removed.
fn get_token(line: &[u8], n: usize) -> (r: Option<Vec<u8>>)
    ensures
        match r {
            Some(t) => token(line@, n as nat) == Some(t@),
            None => token(line@, n as nat) is None,
        },
{
    let mut i: usize = 0;
    let mut k: usize = n;
    loop
        invariant
            i <= line@.len(),
            k <= n,
            field_from(line@, 0, n as nat) == field_from(line@, i as int, k as nat),
        decreases k,
    {
        let j = find_next(line, 0x20u8, i);
        proof {
            lemma_next_index_bounds(line@, 0x20u8, i as int);
        }
        if k == 0 {
            let piece = copy_range(line, i, j);
            let semi: [u8; 1] = [0x3Bu8];
            assert(semi@ =~= semicolon());
            return Some(strip_suffix(&piece, &semi));
        }
        if j >= line.len() {
            return None;
        }
        i = j + 1;
        k = k - 1;
    }
}

impl LineAST {
    /// A short name of the category, for diagnostics.
    pub fn kind_name(&self) -> (r: &'static str)
        ensures
            r@ == match self {
                LineAST::StaticImport(_) => "static import"@,
                LineAST::Import(_) => "import"@,
                LineAST::Package(_) => "package"@,
                LineAST::Decorater => "decorater"@,
                LineAST::Comment => "comment"@,
                LineAST::Other(_) => "other"@,
                LineAST::Visibility(_) => "visibility"@,
            },
    {
        match self {
            LineAST::StaticImport(_) => "static import",
            LineAST::Import(_) => "import",
            LineAST::Package(_) => "package",
            LineAST::Decorater => "decorater",
            LineAST::Comment => "comment",
            LineAST::Other(_) => "other",
            LineAST::Visibility(_) => "visibility",
        }
    }

    /// Classifies one line (without its newline byte).
    pub fn from_line(line: &[u8]) -> (r: Result<LineAST, ParseError>)
        ensures
            match r {
                Ok(a) => classify(line@) == Some(a@),
                Err(_) => classify(line@) is None,
            },
    {
        let kw_static: [u8; 13] = [
            0x69u8, 0x6Du8, 0x70u8, 0x6Fu8, 0x72u8, 0x74u8, 0x20u8, 0x73u8, 0x74u8, 0x61u8, 0x74u8,
            0x69u8, 0x63u8,
        ];
        let kw_imp: [u8; 6] = [0x69u8, 0x6Du8, 0x70u8, 0x6Fu8, 0x72u8, 0x74u8];
        let kw_pkg: [u8; 7] = [0x70u8, 0x61u8, 0x63u8, 0x6Bu8, 0x61u8, 0x67u8, 0x65u8];
        let at: [u8; 1] = [0x40u8];
        let slashes: [u8; 2] = [0x2Fu8, 0x2Fu8];
        let kw_pub: [u8; 6] = [0x70u8, 0x75u8, 0x62u8, 0x6Cu8, 0x69u8, 0x63u8];
        let kw_iface: [u8; 16] = [
            0x70u8, 0x75u8, 0x62u8, 0x6Cu8, 0x69u8, 0x63u8, 0x20u8, 0x69u8, 0x6Eu8, 0x74u8, 0x65u8,
            0x72u8, 0x66u8, 0x61u8, 0x63u8, 0x65u8,
        ];
        let kw_class: [u8; 12] = [
            0x70u8, 0x75u8, 0x62u8, 0x6Cu8, 0x69u8, 0x63u8, 0x20u8, 0x63u8, 0x6Cu8, 0x61u8, 0x73u8,
            0x73u8,
        ];
        let kw_enum: [u8; 11] = [
            0x70u8, 0x75u8, 0x62u8, 0x6Cu8, 0x69u8, 0x63u8, 0x20u8, 0x65u8, 0x6Eu8, 0x75u8, 0x6Du8,
        ];
        assert(kw_static@ =~= kw_import_static());
        assert(kw_imp@ =~= kw_import());
        assert(kw_pkg@ =~= kw_package());
        assert(at@ =~= kw_at());
        assert(slashes@ =~= kw_comment());
        assert(kw_pub@ =~= kw_public());
        assert(kw_iface@ =~= kw_public_interface());
        assert(kw_class@ =~= kw_public_class());
        assert(kw_enum@ =~= kw_public_enum());
        if starts_with(line, &kw_static) {
            return match get_token(line, 2) {
                Some(t) => Ok(LineAST::StaticImport(t)),
                None => Err(ParseError::MissingToken),
            };
        }
        if starts_with(line, &kw_imp) {
            return match get_token(line, 1) {
                Some(t) => Ok(LineAST::Import(t)),
                None => Err(ParseError::MissingToken),
            };
        }
        if starts_with(line, &kw_pkg) {
            return match get_token(line, 1) {
                Some(t) => Ok(LineAST::Package(t)),
                None => Err(ParseError::MissingToken),
            };
        }
        let t = trim_start(line);
        if starts_with(&t, &at) {
            return Ok(LineAST::Decorater);
        }
        if starts_with(&t, &slashes) {
            return Ok(LineAST::Comment);
        }
        if starts_with(&t, &kw_iface) || starts_with(&t, &kw_class) || starts_with(&t, &kw_enum) {
            return Ok(LineAST::Visibility(strip_prefix(&t, &kw_pub)));
        }
        let raw = copy_range(line, 0, line.len());
        assert(raw@ =~= line@);
        Ok(LineAST::Other(raw))
    }
}

/// What a compilation unit holds.
pub struct SourceView {
    pub package: Seq<u8>,
    pub identifier: Seq<u8>,
    pub content: Seq<u8>,
    pub foreign_imports: Seq<u8>,
    pub local_imports: Seq<Seq<u8>>,
}

/// What has been gathered from the lines read so far.
pub struct UnitAcc {
    pub package: Option<Seq<u8>>,
    pub body: Seq<u8>,
    pub foreign: Seq<u8>,
    pub local: Seq<Seq<u8>>,
}

pub open spec fn empty_acc() -> UnitAcc {
    UnitAcc { package: None, body: Seq::empty(), foreign: Seq::empty(), local: Seq::empty() }
}

/// Routes one classified line: imports to the local list or (under the
/// standard-library prefix) verbatim to the foreign lines, the first package
/// to the identifier prefix, kept text to the body; each kept line ends with
/// a newline byte.
pub open spec fn absorb(acc: UnitAcc, line: Seq<u8>, kind: LineKind) -> UnitAcc {
    match kind {
        LineKind::StaticImport(x) => import_into(acc, line, x),
        LineKind::Import(x) => import_into(acc, line, x),
        LineKind::Package(x) => if acc.package is None {
            UnitAcc { package: Some(x + seq![0x2Eu8]), ..acc }
        } else {
            acc
        },
        LineKind::Other(x) => UnitAcc { body: acc.body + x + newline(), ..acc },
        LineKind::Visibility(x) => UnitAcc { body: acc.body + x + newline(), ..acc },
        _ => acc,
    }
}

pub open spec fn import_into(acc: UnitAcc, line: Seq<u8>, x: Seq<u8>) -> UnitAcc {
    if has_prefix(x, kw_java()) {
        UnitAcc { foreign: acc.foreign + line + newline(), ..acc }
    } else {
        UnitAcc { local: acc.local.push(x), ..acc }
    }
}

/// Reads the lines of `s` from index `i` on, split on the newline byte; a
/// trailing newline opens no further line.
pub open spec fn scan_lines(s: Seq<u8>, i: int, acc: UnitAcc) -> Option<UnitAcc>
    decreases s.len() + 1 - i,
    via scan_lines_decreases
{
    if i < 0 || i >= s.len() {
        Some(acc)
    } else {
        let j = next_index(s, 0x0Au8, i);
        match classify(s.subrange(i, j)) {
            None => None,
            Some(k) => scan_lines(s, j + 1, absorb(acc, s.subrange(i, j), k)),
        }
    }
}

#[via_fn]
proof fn scan_lines_decreases(s: Seq<u8>, i: int, acc: UnitAcc) {
    if 0 <= i < s.len() {
        lemma_next_index_bounds(s, 0x0Au8, i);
    }
}

/// The unit that a file named `name` with content `content` makes, or
/// `None` where one of its lines is malformed.
pub open spec fn unit_of(name: Seq<u8>, content: Seq<u8>) -> Option<SourceView> {
    match scan_lines(content, 0, empty_acc()) {
        None => None,
        Some(a) => Some(
            SourceView {
                package: package_prefix(a),
                identifier: package_prefix(a) + without_suffix(name, dot_java()),
                content: a.body,
                foreign_imports: a.foreign,
                local_imports: a.local,
            },
        ),
    }
}

/// The package prefix of a unit: its first package name followed by a dot,
/// or nothing where it has no package line.
pub open spec fn package_prefix(a: UnitAcc) -> Seq<u8> {
    match a.package {
        Some(p) => p,
        None => Seq::empty(),
    }
}

/// The bytes of `ls`, each line followed by a newline byte.
pub open spec fn joined(ls: Seq<Seq<u8>>) -> Seq<u8>
    decreases ls.len(),
{
    if ls.len() == 0 {
        Seq::empty()
    } else {
        joined(ls.drop_last()) + ls.last() + newline()
    }
}

/// Each of `ls` is free of newline bytes and classifies as "other" text,
/// itself.
pub open spec fn stable_lines(ls: Seq<Seq<u8>>) -> bool {
    forall|i: int|
        0 <= i < ls.len() ==> classify(#[trigger] ls[i]) == Some(LineKind::Other(ls[i])) && forall|
            k: int,
        |
            0 <= k < ls[i].len() ==> ls[i][k] != 0x0Au8
}

proof fn lemma_trimmed_suffix(s: Seq<u8>)
    ensures
        trimmed(s).len() <= s.len(),
        trimmed(s) == s.subrange(s.len() - trimmed(s).len(), s.len() as int),
    decreases s.len(),
{
    if s.len() > 0 && s[0] == 0x20u8 {
        let d = s.drop_first();
        lemma_trimmed_suffix(d);
        assert(d.subrange(d.len() - trimmed(d).len(), d.len() as int) =~= s.subrange(
            s.len() - trimmed(d).len(),
            s.len() as int,
        ));
    } else {
        assert(s.subrange(0, s.len() as int) =~= s);
    }
}

proof fn lemma_scan_body(s: Seq<u8>, i: int, acc: UnitAcc, ls0: Seq<Seq<u8>>) -> (ls: Seq<Seq<u8>>)
    requires
        stable_lines(ls0),
        joined(ls0) == acc.body,
        scan_lines(s, i, acc) is Some,
    ensures
        stable_lines(ls),
        joined(ls) == scan_lines(s, i, acc)->0.body,
    decreases s.len() + 1 - i,
{
    if i < 0 || i >= s.len() {
        ls0
    } else {
        let j = next_index(s, 0x0Au8, i);
        lemma_next_index_bounds(s, 0x0Au8, i);
        let line = s.subrange(i, j);
        let kind = classify(line)->0;
        let acc2 = absorb(acc, line, kind);
        lemma_body_line_stable(line);
        let ls1 = match kind {
            LineKind::Other(x) => ls0.push(x),
            LineKind::Visibility(x) => ls0.push(x),
            _ => ls0,
        };
        match kind {
            LineKind::Other(x) => {
                assert(ls1.drop_last() =~= ls0);
                assert forall|k: int| 0 <= k < x.len() implies x[k] != 0x0Au8 by {
                    assert(x[k] == s[i + k]);
                }
                assert forall|q: int| 0 <= q < ls1.len() implies classify(#[trigger] ls1[q]) == Some(
                    LineKind::Other(ls1[q]),
                ) && forall|k: int| 0 <= k < ls1[q].len() ==> ls1[q][k] != 0x0Au8 by {
                    if q < ls0.len() {
                        assert(ls1[q] == ls0[q]);
                    }
                }
            },
            LineKind::Visibility(x) => {
                assert(ls1.drop_last() =~= ls0);
                let t = trimmed(line);
                lemma_trimmed_suffix(line);
                let off = line.len() - t.len();
                if has_prefix(t, kw_public_interface()) {
                    assert(kw_public() + kw_public_interface().subrange(6, 16) =~= kw_public_interface());
                    lemma_prefix_parts(t, kw_public(), kw_public_interface().subrange(6, 16));
                } else if has_prefix(t, kw_public_class()) {
                    assert(kw_public() + kw_public_class().subrange(6, 12) =~= kw_public_class());
                    lemma_prefix_parts(t, kw_public(), kw_public_class().subrange(6, 12));
                } else {
                    assert(kw_public() + kw_public_enum().subrange(6, 11) =~= kw_public_enum());
                    lemma_prefix_parts(t, kw_public(), kw_public_enum().subrange(6, 11));
                }
                assert(has_prefix(t, kw_public()));
                assert forall|k: int| 0 <= k < x.len() implies x[k] != 0x0Au8 by {
                    assert(x[k] == t[6 + k]);
                    assert(t[6 + k] == line[off + 6 + k]);
                    assert(line[off + 6 + k] == s[i + off + 6 + k]);
                }
                assert forall|q: int| 0 <= q < ls1.len() implies classify(#[trigger] ls1[q]) == Some(
                    LineKind::Other(ls1[q]),
                ) && forall|k: int| 0 <= k < ls1[q].len() ==> ls1[q][k] != 0x0Au8 by {
                    if q < ls0.len() {
                        assert(ls1[q] == ls0[q]);
                    }
                }
            },
            _ => {},
        }
        assert(joined(ls1) == acc2.body);
        lemma_scan_body(s, j + 1, acc2, ls1)
    }
}

/// The body of every unit consists of whole lines, each of which classifies
/// again as "other" text, itself.
pub proof fn lemma_body_stable(name: Seq<u8>, content: Seq<u8>)
    requires
        unit_of(name, content) is Some,
    ensures
        exists|ls: Seq<Seq<u8>>| stable_lines(ls) && joined(ls) == unit_of(name, content)->0.content,
{
    let ls = lemma_scan_body(content, 0, empty_acc(), Seq::empty());
    assert(stable_lines(ls) && joined(ls) == unit_of(name, content)->0.content);
}

/// One compilation unit: its identifier, body, foreign import lines and the
/// identifiers of the local units it refers to.
pub struct Source {
    package: Vec<u8>,
    identifier: Vec<u8>,
    content: Vec<u8>,
    foreign_imports: Vec<u8>,
    local_imports: Vec<Vec<u8>>,
}

impl View for Source {
    type V = SourceView;

    closed spec fn view(&self) -> SourceView {
        SourceView {
            package: self.package@,
            identifier: self.identifier@,
            content: self.content@,
            foreign_imports: self.foreign_imports@,
            local_imports: self.local_imports@.map_values(|v: Vec<u8>| v@),
        }
    }
}

impl Source {
    pub fn get_path(&self) -> (r: &[u8])
        ensures
            r@ == self@.identifier,
    {
        self.identifier.as_slice()
    }

    pub fn get_import_files(&self) -> (r: &[Vec<u8>])
        ensures
            r@.map_values(|v: Vec<u8>| v@) == self@.local_imports,
    {
        self.local_imports.as_slice()
    }

    /// Takes the foreign import lines out of the unit.
    pub fn get_import_content(&mut self) -> (r: Vec<u8>)
        ensures
            r@ == old(self)@.foreign_imports,
            final(self)@ == (SourceView { foreign_imports: Seq::empty(), ..old(self)@ }),
    {
        let mut r: Vec<u8> = Vec::new();
        std::mem::swap(&mut self.foreign_imports, &mut r);
        r
    }

    /// Takes the body out of the unit.
    pub fn into_content(&mut self) -> (r: Vec<u8>)
        ensures
            r@ == old(self)@.content,
            final(self)@ == (SourceView { content: Seq::empty(), ..old(self)@ }),
    {
        let mut r: Vec<u8> = Vec::new();
        std::mem::swap(&mut self.content, &mut r);
        r
    }

    /// Adds a local import of `import`, qualified with this unit's own
    /// package prefix.
    pub fn insert_import(&mut self, import: &[u8])
        ensures
            final(self)@ == (SourceView {
                local_imports: old(self)@.local_imports.push(
                    old(self)@.package + import@,
                ),
                ..old(self)@
            }),
    {
        let mut id = copy_range(&self.package, 0, self.package.len());
        assert(id@ =~= self.package@);
        append_bytes(&mut id, import);
        self.local_imports.push(id);
        proof {
            assert(self@.local_imports =~= old(self)@.local_imports.push(
                old(self)@.package + import@,
            ));
        }
    }

    /// Builds the unit of the file `file_name` from its raw
    /// bytes.
    pub fn from_bytes(file_name: &[u8], raw_content: &[u8]) -> (r: Result<Source, ParseError>)
        ensures
            match r {
                Ok(s) => unit_of(file_name@, raw_content@) == Some(s@),
                Err(_) => unit_of(file_name@, raw_content@) is None,
            },
    {
        let ghost s = raw_content@;
        let mut local_imports: Vec<Vec<u8>> = Vec::new();
        let mut foreign_imports: Vec<u8> = Vec::new();
        let mut content: Vec<u8> = Vec::new();
        let mut prefix: Vec<u8> = Vec::new();
        let mut has_package: bool = false;
        let nl: [u8; 1] = [0x0Au8];
        let java: [u8; 4] = [0x6Au8, 0x61u8, 0x76u8, 0x61u8];
        assert(nl@ =~= newline());
        assert(java@ =~= kw_java());
        let mut i: usize = 0;
        proof {
            assert(local_imports@.map_values(|v: Vec<u8>| v@) =~= Seq::<Seq<u8>>::empty());
        }
        while i < raw_content.len()
            invariant
                i <= s.len(),
                s == raw_content@,
                nl@ == newline(),
                java@ == kw_java(),
                !has_package ==> prefix@.len() == 0,
                scan_lines(s, 0, empty_acc()) == scan_lines(
                    s,
                    i as int,
                    UnitAcc {
                        package: if has_package {
                            Some(prefix@)
                        } else {
                            None
                        },
                        body: content@,
                        foreign: foreign_imports@,
                        local: local_imports@.map_values(|v: Vec<u8>| v@),
                    },
                ),
            decreases s.len() - i,
        {
            let j = find_next(raw_content, 0x0Au8, i);
            proof {
                lemma_next_index_bounds(s, 0x0Au8, i as int);
            }
            let raw = copy_range(raw_content, i, j);
            let line = match LineAST::from_line(&raw) {
                Ok(l) => l,
                Err(e) => {
                    return Err(e);
                },
            };
            let ghost before = UnitAcc {
                package: if has_package {
                    Some(prefix@)
                } else {
                    None
                },
                body: content@,
                foreign: foreign_imports@,
                local: local_imports@.map_values(|v: Vec<u8>| v@),
            };
            let ghost kind = line@;
            match line {
                LineAST::StaticImport(x) | LineAST::Import(x) => {
                    if starts_with(&x, &java) {
                        append_bytes(&mut foreign_imports, &raw);
                        append_bytes(&mut foreign_imports, &nl);
                    } else {
                        let ghost x_view = x@;
                        local_imports.push(x);
                        proof {
                            assert(local_imports@.map_values(|v: Vec<u8>| v@) =~= before.local.push(
                                x_view,
                            ));
                        }
                    }
                },
                LineAST::Package(x) => {
                    if !has_package {
                        prefix = x;
                        prefix.push(0x2Eu8);
                        has_package = true;
                        proof {
                            if let LineKind::Package(xv) = kind {
                                assert(prefix@ =~= xv + seq![0x2Eu8]);
                            }
                        }
                    }
                },
                LineAST::Other(x) | LineAST::Visibility(x) => {
                    append_bytes(&mut content, &x);
                    append_bytes(&mut content, &nl);
                },
                _ => {},
            }
            let ghost after = UnitAcc {
                    package: if has_package {
                        Some(prefix@)
                    } else {
                        None
                    },
                    body: content@,
                    foreign: foreign_imports@,
                    local: local_imports@.map_values(|v: Vec<u8>| v@),
                };
            proof {
                assert(after == absorb(before, raw@, kind));
                assert(scan_lines(s, i as int, before) == scan_lines(s, j + 1, after));
            }
            let ghost next = j + 1;
            if j < raw_content.len() {
                i = j + 1;
            } else {
                i = raw_content.len();
            }
            assert(scan_lines(s, next, after) == scan_lines(s, i as int, after));
        }
        let ext: [u8; 5] = [0x2Eu8, 0x6Au8, 0x61u8, 0x76u8, 0x61u8];
        assert(ext@ =~= dot_java());
        let name = strip_suffix(file_name, &ext);
        let package = copy_range(&prefix, 0, prefix.len());
        let ghost pre = prefix@;
        assert(package@ =~= pre);
        append_bytes(&mut prefix, &name);
        let r = Source { package, identifier: prefix, content, foreign_imports, local_imports };
        proof {
            if !has_package {
                assert(r@.package =~= Seq::<u8>::empty());
                assert(r@.identifier =~= Seq::<u8>::empty() + without_suffix(
                    file_name@,
                    dot_java(),
                ));
            }
            assert(r@.identifier == pre + without_suffix(file_name@, dot_java()));
        }
        Ok(r)
    }
}

} // verus!
