//! The diagnostic normalization engine: a line filter applied at eight
//! increasingly aggressive levels, producing the set of candidate normalized
//! outputs ("variations") against which a stored expectation is matched.

use vstd::prelude::*;

use crate::text::begins_with;
use crate::text::chars_eq;
use crate::text::clone_chars;
use crate::text::extend_chars;
use crate::text::find_char;
use crate::text::find_char_at;
use crate::text::find_sub;
use crate::text::find_sub_at;
use crate::text::first_non_ws;
use crate::text::is_ws;
use crate::text::lemma_find_sub_at;
use crate::text::lemma_rfind_sep_at;
use crate::text::matches_at;
use crate::text::replace_all;
use crate::text::replace_chars;
use crate::text::rfind_sep;
use crate::text::rfind_sep_at;
use crate::text::starts_with;
use crate::text::str_to_chars;
use crate::text::subvec;
use crate::text::trim_end;
use crate::text::trim_end_chars;
use crate::text::trim_start_len;

verus! {

/// Substitution targets for one test: the crate token replaced by `$CRATE`,
/// the source directory replaced by `$DIR`, and the workspace root replaced
/// by `$WORKSPACE`.
pub struct Context {
    pub krate: String,
    pub source_dir: String,
    pub workspace: String,
}

/// The mathematical content of a `Context`: three character sequences.
pub struct CtxView {
    pub krate: Seq<char>,
    pub source_dir: Seq<char>,
    pub workspace: Seq<char>,
}

impl View for Context {
    type V = CtxView;

    open spec fn view(&self) -> CtxView {
        CtxView { krate: self.krate@, source_dir: self.source_dir@, workspace: self.workspace@ }
    }
}

/// A normalization level. Levels are ordered; each rule of the line filter
/// fires at every level at or above the one it is named after, so a higher
/// level never keeps a line that a lower level drops.
#[derive(Clone, Copy, PartialEq, Eq, Structural)]
pub enum Normalization {
    Basic,
    StripCouldNotCompile,
    StripCouldNotCompile2,
    StripForMoreInformation,
    StripForMoreInformation2,
    DirBackslash,
    TrimEnd,
    RustLib,
}

impl Normalization {
    /// Position of this level in the aggressiveness order.
    pub open spec fn ordinal(self) -> int {
        match self {
            Normalization::Basic => 0,
            Normalization::StripCouldNotCompile => 1,
            Normalization::StripCouldNotCompile2 => 2,
            Normalization::StripForMoreInformation => 3,
            Normalization::StripForMoreInformation2 => 4,
            Normalization::DirBackslash => 5,
            Normalization::TrimEnd => 6,
            Normalization::RustLib => 7,
        }
    }

    /// Executable ordinal.
    pub fn level(self) -> (n: u8)
        ensures
            n as int == self.ordinal(),
    {
        match self {
            Normalization::Basic => 0,
            Normalization::StripCouldNotCompile => 1,
            Normalization::StripCouldNotCompile2 => 2,
            Normalization::StripForMoreInformation => 3,
            Normalization::StripForMoreInformation2 => 4,
            Normalization::DirBackslash => 5,
            Normalization::TrimEnd => 6,
            Normalization::RustLib => 7,
        }
    }
}

/// Number of normalization levels, and so of variations.
pub open spec fn level_count() -> int {
    8
}

/// Rewriting of a location-arrow line: everything between the arrow marker
/// and the last path separator is collapsed to a `$DIR/` token, leaving only
/// the file's base name.
pub open spec fn spec_rewrite_arrow(line: Seq<char>) -> Option<Seq<char>> {
    let cut_end = rfind_sep_at(line)->Some_0;
    match find_char_at(line, '>') {
        Some(gt) => if gt + 2 <= line.len() {
            Some(line.take(gt + 2) + "$DIR/"@ + line.skip(cut_end + 1))
        } else {
            Some(line)
        },
        None => Some(line),
    }
}

/// Rewriting of a secondary-location line: the workspace root becomes
/// `$WORKSPACE`, path separators become forward slashes, and at the
/// `RustLib` level an embedded toolchain standard-library path collapses to
/// `$RUST`.
pub open spec fn spec_rewrite_colon(line: Seq<char>, level: int, ctx: CtxView) -> Seq<char> {
    let l1 = replace_all(line, ctx.workspace, "$WORKSPACE"@);
    let l2 = replace_all(l1, seq!['\\'], seq!['/']);
    if level >= Normalization::RustLib.ordinal() {
        match find_sub_at(l2, "/rustlib/src/rust/src/"@) {
            Some(pos) => match find_sub_at(l2, "::: "@) {
                Some(f) => if f + 4 <= pos + 17 && pos + 17 <= l2.len() {
                    l2.take(f + 4) + "$RUST"@ + l2.skip(pos + 17)
                } else {
                    l2
                },
                None => l2,
            },
            None => l2,
        }
    } else {
        l2
    }
}

/// The closing substitutions of the line filter: at `DirBackslash` a
/// backslash-suffixed source directory becomes `$DIR/`, at `TrimEnd`
/// trailing whitespace goes, and the crate token, source directory and
/// workspace become `$CRATE`, `$DIR` and `$WORKSPACE`. An empty
/// substitution target is a no-op, never a deletion.
pub open spec fn spec_substitute(line: Seq<char>, level: int, ctx: CtxView) -> Seq<char> {
    let a = if level >= Normalization::DirBackslash.ordinal() && ctx.source_dir.len() > 0 {
        replace_all(line, ctx.source_dir + seq!['\\'], "$DIR/"@)
    } else {
        line
    };
    let b = if level >= Normalization::TrimEnd.ordinal() {
        trim_end(a)
    } else {
        a
    };
    replace_all(
        replace_all(replace_all(b, ctx.krate, "$CRATE"@), ctx.source_dir, "$DIR"@),
        ctx.workspace,
        "$WORKSPACE"@,
    )
}

/// The line filter: given one line of raw diagnostic output, a normalization
/// level and a context, decide whether to keep the line and how to rewrite
/// it. `None` drops the line.
pub open spec fn spec_filter(line: Seq<char>, level: int, ctx: CtxView) -> Option<Seq<char>> {
    let stripped = line.skip(trim_start_len(line));
    if starts_with(stripped, "--> "@) && rfind_sep_at(line) is Some {
        spec_rewrite_arrow(line)
    } else if starts_with(stripped, "::: "@) {
        Some(spec_rewrite_colon(line, level, ctx))
    } else if starts_with(line, "error: aborting due to "@) {
        None
    } else if line == "To learn more, run the command again with --verbose."@ {
        None
    } else if level >= Normalization::StripCouldNotCompile.ordinal() && starts_with(
        line,
        "error: Could not compile `"@,
    ) {
        None
    } else if level >= Normalization::StripCouldNotCompile2.ordinal() && starts_with(
        line,
        "error: could not compile `"@,
    ) {
        None
    } else if level >= Normalization::StripForMoreInformation.ordinal() && starts_with(
        line,
        "For more information about this error, try `rustc --explain"@,
    ) {
        None
    } else if level >= Normalization::StripForMoreInformation2.ordinal() && (starts_with(
        line,
        "Some errors have detailed explanations:"@,
    ) || starts_with(line, "For more information about an error, try `rustc --explain"@)) {
        None
    } else {
        Some(spec_substitute(line, level, ctx))
    }
}

/// Executable line filter; its behaviour is exactly `spec_filter`.
pub fn filter(
    line: &Vec<char>,
    level: u8,
    krate: &Vec<char>,
    source_dir: &Vec<char>,
    workspace: &Vec<char>,
) -> (r: Option<Vec<char>>)
    ensures
        match r {
            Some(l) => spec_filter(
                line@,
                level as int,
                CtxView { krate: krate@, source_dir: source_dir@, workspace: workspace@ },
            ) == Some(l@),
            None => spec_filter(
                line@,
                level as int,
                CtxView { krate: krate@, source_dir: source_dir@, workspace: workspace@ },
            ) is None,
        },
{
    let ghost ctx = CtxView { krate: krate@, source_dir: source_dir@, workspace: workspace@ };
    let ts = first_non_ws(line);
    let stripped = subvec(line, ts, line.len());
    proof {
        assert(stripped@ =~= line@.skip(trim_start_len(line@)));
    }
    let arrow = str_to_chars("--> ");
    if begins_with(&stripped, &arrow) {
        if let Some(cut_end) = rfind_sep(line) {
            proof {
                lemma_rfind_sep_at(line@);
            }
            match find_char(line, '>') {
                Some(gt) => {
                    if line.len() >= 2 && gt <= line.len() - 2 {
                        let mut out = subvec(line, 0, gt + 2);
                        let tok = str_to_chars("$DIR/");
                        extend_chars(&mut out, &tok);
                        let rest = subvec(line, cut_end + 1, line.len());
                        extend_chars(&mut out, &rest);
                        proof {
                            assert(line@.subrange(0, gt + 2) =~= line@.take(gt + 2));
                            assert(line@.subrange(cut_end + 1, line@.len() as int) =~= line@.skip(
                                cut_end + 1,
                            ));
                        }
                        return Some(out);
                    } else {
                        return Some(clone_chars(line));
                    }
                },
                None => {
                    return Some(clone_chars(line));
                },
            }
        }
    }
    let colon = str_to_chars("::: ");
    if begins_with(&stripped, &colon) {
        let ws_tok = str_to_chars("$WORKSPACE");
        let l1 = replace_chars(line, workspace, &ws_tok);
        let mut backslash: Vec<char> = Vec::new();
        backslash.push('\\');
        let mut slash: Vec<char> = Vec::new();
        slash.push('/');
        proof {
            assert(backslash@ =~= seq!['\\']);
            assert(slash@ =~= seq!['/']);
        }
        let l2 = replace_chars(&l1, &backslash, &slash);
        if level >= 7 {
            let rustlib = str_to_chars("/rustlib/src/rust/src/");
            match find_sub(&l2, &rustlib) {
                Some(pos) => {
                    proof {
                        lemma_find_sub_at(l2@, rustlib@);
                        reveal_strlit("/rustlib/src/rust/src/");
                        assert(rustlib@.len() == 22);
                        assert(pos + 22 <= l2@.len());
                    }
                    match find_sub(&l2, &colon) {
                        Some(f) => {
                            proof {
                                lemma_find_sub_at(l2@, colon@);
                                reveal_strlit("::: ");
                                assert(colon@.len() == 4);
                                assert(f + 4 <= l2@.len());
                            }
                            let l2_len = l2.len();
                            proof {
                                assert(pos + 17 <= l2_len);
                                assert(f + 4 <= l2_len);
                            }
                            if f + 4 <= pos + 17 {
                                let mut out = subvec(&l2, 0, f + 4);
                                let rust_tok = str_to_chars("$RUST");
                                extend_chars(&mut out, &rust_tok);
                                let rest = subvec(&l2, pos + 17, l2.len());
                                extend_chars(&mut out, &rest);
                                proof {
                                    assert(l2@.subrange(0, f + 4) =~= l2@.take(f + 4));
                                    assert(l2@.subrange(pos + 17, l2@.len() as int) =~= l2@.skip(
                                        pos + 17,
                                    ));
                                }
                                return Some(out);
                            } else {
                                return Some(l2);
                            }
                        },
                        None => {
                            return Some(l2);
                        },
                    }
                },
                None => {
                    return Some(l2);
                },
            }
        } else {
            return Some(l2);
        }
    }
    let aborting = str_to_chars("error: aborting due to ");
    if begins_with(line, &aborting) {
        return None;
    }
    let verbose = str_to_chars("To learn more, run the command again with --verbose.");
    if chars_eq(line, &verbose) {
        return None;
    }
    if level >= 1 {
        let pat = str_to_chars("error: Could not compile `");
        if begins_with(line, &pat) {
            return None;
        }
    }
    if level >= 2 {
        let pat = str_to_chars("error: could not compile `");
        if begins_with(line, &pat) {
            return None;
        }
    }
    if level >= 3 {
        let pat = str_to_chars("For more information about this error, try `rustc --explain");
        if begins_with(line, &pat) {
            return None;
        }
    }
    if level >= 4 {
        let pat = str_to_chars("Some errors have detailed explanations:");
        if begins_with(line, &pat) {
            return None;
        }
        let pat2 = str_to_chars("For more information about an error, try `rustc --explain");
        if begins_with(line, &pat2) {
            return None;
        }
    }
    let mut cur = clone_chars(line);
    if level >= 5 && source_dir.len() > 0 {
        let mut pat = clone_chars(source_dir);
        pat.push('\\');
        proof {
            assert(pat@ =~= ctx.source_dir + seq!['\\']);
        }
        let dir_slash = str_to_chars("$DIR/");
        cur = replace_chars(line, &pat, &dir_slash);
    }
    if level >= 6 {
        cur = trim_end_chars(&cur);
    }
    let crate_tok = str_to_chars("$CRATE");
    let dir_tok = str_to_chars("$DIR");
    let ws_tok = str_to_chars("$WORKSPACE");
    let a = replace_chars(&cur, krate, &crate_tok);
    let b = replace_chars(&a, source_dir, &dir_tok);
    let c = replace_chars(&b, workspace, &ws_tok);
    Some(c)
}


/// The character-sequence views of a vector of lines.
pub open spec fn views_of(vs: Seq<Vec<char>>) -> Seq<Seq<char>> {
    vs.map_values(|v: Vec<char>| v@)
}

/// Pushing a line commutes with taking views.
pub proof fn lemma_views_push(vs: Seq<Vec<char>>, x: Vec<char>)
    ensures
        views_of(vs.push(x)) == views_of(vs).push(x@),
{
    assert(views_of(vs.push(x)) =~= views_of(vs).push(x@));
}

/// A line stripped of one trailing carriage return, as happens to every
/// newline-terminated line when a text is split.
pub open spec fn strip_cr(l: Seq<char>) -> Seq<char> {
    if l.len() > 0 && l[l.len() - 1] == '\r' {
        l.drop_last()
    } else {
        l
    }
}

/// Splitting into lines, scanning `s` with `cur` holding the partial line
/// read so far: lines are delimited by a newline, which also eats one
/// carriage return just before it; a final unterminated line is kept as is.
pub open spec fn lines_acc(s: Seq<char>, cur: Seq<char>) -> Seq<Seq<char>>
    decreases s.len(),
{
    if s.len() == 0 {
        if cur.len() == 0 {
            Seq::empty()
        } else {
            seq![cur]
        }
    } else if s[0] == '\n' {
        seq![strip_cr(cur)] + lines_acc(s.skip(1), Seq::empty())
    } else {
        lines_acc(s.skip(1), cur.push(s[0]))
    }
}

/// The lines of a text.
pub open spec fn spec_lines(s: Seq<char>) -> Seq<Seq<char>> {
    lines_acc(s, Seq::empty())
}

/// One scanning step of `lines_acc`, phrased at offset `i` into `s`.
pub proof fn lemma_lines_acc_step(s: Seq<char>, i: int, cur: Seq<char>)
    requires
        0 <= i < s.len(),
    ensures
        s[i] == '\n' ==> lines_acc(s.skip(i), cur) == seq![strip_cr(cur)] + lines_acc(
            s.skip(i + 1),
            Seq::empty(),
        ),
        s[i] != '\n' ==> lines_acc(s.skip(i), cur) == lines_acc(s.skip(i + 1), cur.push(s[i])),
{
    assert(s.skip(i)[0] == s[i]);
    assert(s.skip(i).skip(1) =~= s.skip(i + 1));
}

/// Executable line splitting; its behaviour is exactly `spec_lines`.
#[verifier::loop_isolation(false)]
pub fn split_lines(text: &Vec<char>) -> (r: Vec<Vec<char>>)
    ensures
        views_of(r@) == spec_lines(text@),
{
    let mut out: Vec<Vec<char>> = Vec::new();
    let mut cur: Vec<char> = Vec::new();
    let mut i: usize = 0;
    proof {
        assert(text@.skip(0) =~= text@);
    }
    while i < text.len()
        invariant
            0 <= i <= text@.len(),
            spec_lines(text@) == views_of(out@) + lines_acc(text@.skip(i as int), cur@),
        decreases text@.len() - i,
    {
        proof {
            lemma_lines_acc_step(text@, i as int, cur@);
        }
        if text[i] == '\n' {
            let ghost cur0 = cur@;
            let mut flushed = cur;
            cur = Vec::new();
            if flushed.len() > 0 && flushed[flushed.len() - 1] == '\r' {
                flushed.pop();
            }
            proof {
                assert(flushed@ =~= strip_cr(cur0));
                lemma_views_push(out@, flushed);
                assert((views_of(out@).push(flushed@) + lines_acc(
                    text@.skip(i + 1),
                    Seq::empty(),
                )) =~= views_of(out@) + (seq![flushed@] + lines_acc(
                    text@.skip(i + 1),
                    Seq::empty(),
                )));
            }
            out.push(flushed);
        } else {
            cur.push(text[i]);
        }
        i += 1;
    }
    proof {
        assert(text@.skip(text@.len() as int).len() == 0);
    }
    if cur.len() > 0 {
        proof {
            lemma_views_push(out@, cur);
            assert((views_of(out@).push(cur@)) =~= views_of(out@) + seq![cur@]);
        }
        out.push(cur);
    } else {
        proof {
            assert(views_of(out@) + Seq::<Seq<char>>::empty() =~= views_of(out@));
        }
    }
    out
}

/// Appending one kept line to the joined text: the line, then a newline,
/// unless the text would then end in two newlines (which collapses runs of
/// blank lines).
pub open spec fn spec_keep(acc: Seq<char>, l: Seq<char>) -> Seq<char> {
    let t = acc + l;
    if t.len() >= 2 && t[t.len() - 1] == '\n' && t[t.len() - 2] == '\n' {
        t
    } else {
        t.push('\n')
    }
}

/// The join of the filtered lines of a text, in order.
pub open spec fn spec_join(lines: Seq<Seq<char>>, level: int, ctx: CtxView) -> Seq<char>
    decreases lines.len(),
{
    if lines.len() == 0 {
        Seq::empty()
    } else {
        let prefix = spec_join(lines.drop_last(), level, ctx);
        match spec_filter(lines.last(), level, ctx) {
            None => prefix,
            Some(l) => spec_keep(prefix, l),
        }
    }
}

/// Final trim of a joined text: trailing whitespace goes, and a non-empty
/// result ends with exactly one newline.
pub open spec fn spec_trim_text(s: Seq<char>) -> Seq<char> {
    let t = trim_end(s);
    if t.len() == 0 {
        t
    } else {
        t.push('\n')
    }
}

/// One normalized rendering of a whole diagnostic text at one level.
pub open spec fn spec_apply(text: Seq<char>, level: int, ctx: CtxView) -> Seq<char> {
    spec_trim_text(spec_join(spec_lines(text), level, ctx))
}

/// Executable normalization of a whole text at one level; its behaviour is
/// exactly `spec_apply`.
#[verifier::loop_isolation(false)]
pub fn apply(
    text: &Vec<char>,
    level: u8,
    krate: &Vec<char>,
    source_dir: &Vec<char>,
    workspace: &Vec<char>,
) -> (r: Vec<char>)
    ensures
        r@ == spec_apply(
            text@,
            level as int,
            CtxView { krate: krate@, source_dir: source_dir@, workspace: workspace@ },
        ),
{
    let ghost ctx = CtxView { krate: krate@, source_dir: source_dir@, workspace: workspace@ };
    let lines = split_lines(text);
    let ghost ls = views_of(lines@);
    let mut acc: Vec<char> = Vec::new();
    let mut i: usize = 0;
    proof {
        assert(ls.take(0) =~= Seq::<Seq<char>>::empty());
    }
    while i < lines.len()
        invariant
            0 <= i <= lines@.len(),
            ls == views_of(lines@),
            acc@ == spec_join(ls.take(i as int), level as int, ctx),
        decreases lines@.len() - i,
    {
        proof {
            assert(ls.take(i + 1).drop_last() =~= ls.take(i as int));
            assert(ls.take(i + 1).last() == ls[i as int]);
            assert(ls[i as int] == lines@[i as int]@);
        }
        match filter(&lines[i], level, krate, source_dir, workspace) {
            Some(l) => {
                extend_chars(&mut acc, &l);
                let n: usize = acc.len();
                if !(n >= 2 && acc[n - 1] == '\n' && acc[n - 2] == '\n') {
                    acc.push('\n');
                }
            },
            None => {},
        }
        i += 1;
    }
    proof {
        assert(ls.take(ls.len() as int) =~= ls);
    }
    let t = trim_end_chars(&acc);
    let mut r = t;
    if r.len() > 0 {
        r.push('\n');
    }
    r
}

/// Name for what `String::from_utf8_lossy` decodes a byte string to.
pub uninterp spec fn lossy_decode(bytes: Seq<u8>) -> Seq<char>;

/// Relies on `String::from_utf8_lossy`: the decoding is a pure function of
/// the bytes (invalid sequences become replacement characters, valid ones
/// their characters), and an empty input decodes to an empty string.
#[verifier::external_body]
fn decode_lossy(bytes: &[u8]) -> (r: Vec<char>)
    ensures
        r@ == lossy_decode(bytes@),
        bytes@.len() == 0 ==> r@.len() == 0,
{
    String::from_utf8_lossy(bytes).chars().collect()
}

/// Relies on `String`'s `FromIterator<char>` implementation: collecting
/// characters yields the string with exactly those characters.
#[verifier::external_body]
pub(crate) fn chars_to_string(v: &Vec<char>) -> (r: String)
    ensures
        r@ == v@,
{
    v.iter().collect()
}

/// Decode raw compiler output, drop trailing whitespace, and terminate a
/// non-empty result with exactly one newline.
pub fn trim(output: &[u8]) -> (r: String)
    ensures
        r@ == spec_trim_text(lossy_decode(output@)),
        output@.len() == 0 ==> r@.len() == 0,
{
    let chars = decode_lossy(output);
    let t = trim_end_chars(&chars);
    let mut r = t;
    proof {
        if output@.len() == 0 {
            crate::text::lemma_trim_end_len(chars@);
        }
    }
    if r.len() > 0 {
        r.push('\n');
    }
    chars_to_string(&r)
}

/// The ordered list of normalized renderings of one diagnostic text, from
/// least to most aggressive; the last is the preferred one, shown to the
/// user and written when an expectation is recorded.
pub struct Variations {
    variations: Vec<String>,
}

impl View for Variations {
    type V = Seq<Seq<char>>;

    closed spec fn view(&self) -> Seq<Seq<char>> {
        self.variations@.map_values(|s: String| s@)
    }
}

impl Variations {
    /// A well-formed value holds one rendering per level.
    pub open spec fn wf(self) -> bool {
        self@.len() == level_count()
    }

    /// How many variations there are.
    pub fn count(&self) -> (n: usize)
        ensures
            n == self@.len(),
    {
        self.variations.len()
    }

    /// The variation at one level, `Basic` first.
    pub fn variation(&self, i: usize) -> (r: &String)
        requires
            i < self@.len(),
        ensures
            r@ == self@[i as int],
    {
        &self.variations[i]
    }

    /// The preferred variation: the most aggressively normalized rendering.
    pub fn preferred(&self) -> (r: &String)
        requires
            self.wf(),
        ensures
            r@ == self@.last(),
    {
        &self.variations[self.variations.len() - 1]
    }
}

/// Normalize raw diagnostic bytes at every level in aggressiveness order.
pub fn diagnostics(output: &[u8], context: &Context) -> (v: Variations)
    ensures
        v.wf(),
        forall|i: int|
            0 <= i < level_count() ==> v@[i] == spec_apply(lossy_decode(output@), i, context@),
{
    let chars = decode_lossy(output);
    let krate = str_to_chars(context.krate.as_str());
    let dir = str_to_chars(context.source_dir.as_str());
    let ws = str_to_chars(context.workspace.as_str());
    let mut vars: Vec<String> = Vec::new();
    let mut lvl: u8 = 0;
    while lvl < 8
        invariant
            0 <= lvl <= 8,
            vars@.len() == lvl as int,
            krate@ == context@.krate,
            dir@ == context@.source_dir,
            ws@ == context@.workspace,
            chars@ == lossy_decode(output@),
            forall|i: int|
                0 <= i < lvl as int ==> vars@[i]@ == spec_apply(lossy_decode(output@), i, context@),
        decreases 8 - lvl,
    {
        let a = apply(&chars, lvl, &krate, &dir, &ws);
        let s = chars_to_string(&a);
        vars.push(s);
        lvl += 1;
    }
    let v = Variations { variations: vars };
    proof {
        assert(forall|i: int| 0 <= i < 8 ==> v@[i] == vars@[i]@);
    }
    v
}

/// The stored expectation, its line endings normalized, equals one of the
/// variations.
pub open spec fn crlf_to_lf(s: Seq<char>) -> Seq<char> {
    replace_all(s, "\r\n"@, "\n"@)
}

/// Whether a stored expectation matches any variation.
pub open spec fn spec_matches(vars: Seq<Seq<char>>, expected: Seq<char>) -> bool {
    exists|i: int| 0 <= i < vars.len() && vars[i] == crlf_to_lf(expected)
}

/// Checks whether the stored expectation `expected` is considered to match
/// the compiler output whose renderings are `variations`. The stored text
/// has its own line-ending style normalized first; it is never rewritten
/// toward the output in any other way.
pub fn matches(variations: &Variations, expected: &str) -> (r: bool)
    ensures
        r == spec_matches(variations@, expected@),
{
    let e = str_to_chars(expected);
    let crlf = str_to_chars("\r\n");
    let lf = str_to_chars("\n");
    let norm = replace_chars(&e, &crlf, &lf);
    let n: usize = variations.count();
    let mut i: usize = 0;
    while i < n
        invariant
            0 <= i <= n,
            n == variations@.len(),
            norm@ == crlf_to_lf(expected@),
            forall|j: int| 0 <= j < i ==> variations@[j] != crlf_to_lf(expected@),
        decreases n - i,
    {
        let v = variations.variation(i);
        let vc = str_to_chars(v.as_str());
        if chars_eq(&vc, &norm) {
            return true;
        }
        i += 1;
    }
    false
}


impl Context {
    /// The substitution context of one test: its generated crate token and
    /// the project's directories.
    pub fn new(project: &crate::run::Project, test: &crate::run::Test) -> (c: Context)
        ensures
            c@.krate == test.name@,
            c@.source_dir == project.source_dir@,
            c@.workspace == project.workspace@,
    {
        Context {
            krate: test.crate_name(),
            source_dir: project.source_dir.clone(),
            workspace: project.workspace.clone(),
        }
    }
}

/// Every variation of an empty text is empty, and a non-empty variation
/// ends with exactly one trailing newline: its last character is a newline
/// and the character before, if any, is not even whitespace.
pub proof fn lemma_variation_newline(text: Seq<char>, level: int, ctx: CtxView)
    ensures
        text.len() == 0 ==> spec_apply(text, level, ctx).len() == 0,
        spec_apply(text, level, ctx).len() > 0 ==> spec_apply(text, level, ctx).last() == '\n',
        spec_apply(text, level, ctx).len() > 1 ==> !is_ws(
            spec_apply(text, level, ctx)[spec_apply(text, level, ctx).len() - 2],
        ),
{
    let j = spec_join(spec_lines(text), level, ctx);
    let t = trim_end(j);
    crate::text::lemma_trim_end_len(j);
    if text.len() == 0 {
        assert(spec_lines(text) =~= Seq::<Seq<char>>::empty());
        assert(j.len() == 0);
        assert(t.len() == 0);
    }
    if t.len() > 0 {
        assert(spec_apply(text, level, ctx) == t.push('\n'));
        assert(t.last() == t[t.len() - 1]);
        assert(!is_ws(t[crate::text::trim_end_len(j) - 1]));
    }
}

/// A line dropped at one level is dropped at every higher level: the lines
/// surviving a more aggressive level are a subset of those surviving a less
/// aggressive one, so the levels are monotone in aggressiveness.
pub proof fn lemma_filter_monotonic(line: Seq<char>, l1: int, l2: int, ctx: CtxView)
    requires
        l1 <= l2,
    ensures
        spec_filter(line, l1, ctx) is None ==> spec_filter(line, l2, ctx) is None,
{
}

/// With an empty crate token and empty directories the closing substitution
/// rule alters nothing: an empty substitution target is a no-op, never a
/// deletion, so below the `TrimEnd` level a kept ordinary line is returned
/// verbatim, and at or above it only its trailing whitespace goes.
pub proof fn lemma_empty_context_substitution(line: Seq<char>, level: int, ctx: CtxView)
    requires
        ctx.krate.len() == 0,
        ctx.source_dir.len() == 0,
        ctx.workspace.len() == 0,
    ensures
        level < Normalization::TrimEnd.ordinal() ==> spec_substitute(line, level, ctx) == line,
        level >= Normalization::TrimEnd.ordinal() ==> spec_substitute(line, level, ctx)
            == trim_end(line),
{
}

/// Line-ending normalization of a text without a carriage-return-newline
/// pair is the identity.
pub proof fn lemma_crlf_absent(s: Seq<char>)
    requires
        forall|j: int| 0 <= j < s.len() ==> !matches_at(s, "\r\n"@, j),
    ensures
        crlf_to_lf(s) == s,
{
    crate::text::lemma_replace_all_absent(s, "\r\n"@, "\n"@);
}

/// Round trip: the preferred variation, stored as the expectation and read
/// back unchanged, matches the same output's variations, provided it holds
/// no carriage-return-newline pair (stored line endings are normalized on
/// read).
pub proof fn lemma_round_trip(vars: Seq<Seq<char>>)
    requires
        vars.len() > 0,
        forall|j: int| 0 <= j < vars.last().len() ==> !matches_at(vars.last(), "\r\n"@, j),
    ensures
        spec_matches(vars, vars.last()),
{
    lemma_crlf_absent(vars.last());
    assert(0 <= vars.len() - 1 < vars.len() && vars[vars.len() - 1] == crlf_to_lf(vars.last()));
}


/// The lines that the filter keeps, in order, each as rewritten.
pub open spec fn kept_of(lines: Seq<Seq<char>>, level: int, ctx: CtxView) -> Seq<Seq<char>>
    decreases lines.len(),
{
    if lines.len() == 0 {
        Seq::empty()
    } else {
        kept_of(lines.drop_last(), level, ctx) + (match spec_filter(lines.last(), level, ctx) {
            None => Seq::<Seq<char>>::empty(),
            Some(l) => seq![l],
        })
    }
}

/// The join of already-filtered lines.
pub open spec fn join_kept(ks: Seq<Seq<char>>) -> Seq<char>
    decreases ks.len(),
{
    if ks.len() == 0 {
        Seq::empty()
    } else {
        spec_keep(join_kept(ks.drop_last()), ks.last())
    }
}

/// Joining the filtered lines is filtering first and joining after.
pub proof fn lemma_join_as_kept(lines: Seq<Seq<char>>, level: int, ctx: CtxView)
    ensures
        spec_join(lines, level, ctx) == join_kept(kept_of(lines, level, ctx)),
    decreases lines.len(),
{
    if lines.len() > 0 {
        lemma_join_as_kept(lines.drop_last(), level, ctx);
        let a = kept_of(lines.drop_last(), level, ctx);
        match spec_filter(lines.last(), level, ctx) {
            None => {
                assert(a + Seq::<Seq<char>>::empty() =~= a);
            },
            Some(l) => {
                assert((a + seq![l]).drop_last() =~= a);
                assert((a + seq![l]).last() == l);
            },
        }
    }
}

/// A joined text is empty only for no lines, and otherwise ends with a
/// newline.
pub proof fn lemma_join_kept_ends_nl(ks: Seq<Seq<char>>)
    ensures
        ks.len() == 0 ==> join_kept(ks).len() == 0,
        ks.len() > 0 ==> join_kept(ks).len() > 0 && join_kept(ks).last() == '\n',
    decreases ks.len(),
{
    if ks.len() > 0 {
        lemma_join_kept_ends_nl(ks.drop_last());
    }
}

/// A line without newlines: appending it always appends its own newline.
pub proof fn lemma_join_kept_nonempty_step(a: Seq<Seq<char>>, k: Seq<char>)
    requires
        k.len() > 0,
        forall|i: int| 0 <= i < k.len() ==> k[i] != '\n',
    ensures
        join_kept(a.push(k)) == (join_kept(a) + k).push('\n'),
{
    assert(a.push(k).drop_last() =~= a);
    assert(a.push(k).last() == k);
    let t = join_kept(a) + k;
    assert(t.last() == k.last());
    assert(k.last() != '\n');
}

/// A line is clean when it holds no newline and does not end in whitespace.
pub open spec fn line_clean(l: Seq<char>) -> bool {
    (forall|i: int| 0 <= i < l.len() ==> l[i] != '\n') && (l.len() > 0 ==> !is_ws(l.last()))
}

/// A line the filter keeps unchanged at the most aggressive level.
pub open spec fn spec_stable_line(l: Seq<char>, ctx: CtxView) -> bool {
    spec_filter(l, Normalization::RustLib.ordinal(), ctx) == Some(l)
}

/// A raw line whose most-aggressive filtering, if kept, is clean and is
/// left unchanged when filtered again.
pub open spec fn line_stable(l: Seq<char>, ctx: CtxView) -> bool {
    match spec_filter(l, Normalization::RustLib.ordinal(), ctx) {
        None => true,
        Some(l2) => spec_stable_line(l2, ctx) && line_clean(l2),
    }
}

/// The kept lines of stable raw lines are clean and themselves stable.
pub proof fn lemma_kept_props(lines: Seq<Seq<char>>, ctx: CtxView)
    requires
        forall|i: int| 0 <= i < lines.len() ==> line_stable(lines[i], ctx),
    ensures
        forall|j: int|
            0 <= j < kept_of(lines, Normalization::RustLib.ordinal(), ctx).len() ==> line_clean(
                #[trigger] kept_of(lines, Normalization::RustLib.ordinal(), ctx)[j],
            ) && spec_stable_line(kept_of(lines, Normalization::RustLib.ordinal(), ctx)[j], ctx),
    decreases lines.len(),
{
    let rl = Normalization::RustLib.ordinal();
    if lines.len() > 0 {
        assert(forall|i: int| 0 <= i < lines.len() - 1 ==> lines.drop_last()[i] == lines[i]);
        lemma_kept_props(lines.drop_last(), ctx);
        let a = kept_of(lines.drop_last(), rl, ctx);
        assert(line_stable(lines.last(), ctx));
        match spec_filter(lines.last(), rl, ctx) {
            None => {
                assert(kept_of(lines, rl, ctx) =~= a);
            },
            Some(l) => {
                assert(kept_of(lines, rl, ctx) =~= a.push(l));
                assert forall|j: int| 0 <= j < a.push(l).len() implies line_clean(
                    #[trigger] a.push(l)[j],
                ) && spec_stable_line(a.push(l)[j], ctx) by {
                    if j < a.len() {
                        assert(a.push(l)[j] == a[j]);
                        assert(line_clean(a[j]) && spec_stable_line(a[j], ctx));
                    }
                }
            },
        }
    }
}

/// Trailing whitespace survives nothing: trimming ignores a whitespace
/// character appended at the end.
pub proof fn lemma_trim_end_push_ws(s: Seq<char>, c: char)
    requires
        is_ws(c),
    ensures
        crate::text::trim_end_len(s.push(c)) == crate::text::trim_end_len(s),
{
    assert(s.push(c).len() > 0);
    assert(s.push(c).last() == c);
    assert(s.push(c).drop_last() =~= s);
}

/// The trailing blank lines of a kept-line list.
pub open spec fn trunc_blank(ks: Seq<Seq<char>>) -> Seq<Seq<char>>
    decreases ks.len(),
{
    if ks.len() == 0 {
        Seq::empty()
    } else if ks.last().len() == 0 {
        trunc_blank(ks.drop_last())
    } else {
        ks
    }
}

/// Dropping trailing blank lines keeps every remaining line's position.
pub proof fn lemma_trunc_blank_elems(ks: Seq<Seq<char>>)
    ensures
        trunc_blank(ks).len() <= ks.len(),
        forall|j: int| 0 <= j < trunc_blank(ks).len() ==> trunc_blank(ks)[j] == ks[j],
        trunc_blank(ks).len() > 0 ==> trunc_blank(ks).last().len() > 0,
    decreases ks.len(),
{
    if ks.len() > 0 && ks.last().len() == 0 {
        lemma_trunc_blank_elems(ks.drop_last());
        assert(forall|j: int| 0 <= j < ks.len() - 1 ==> ks.drop_last()[j] == ks[j]);
    }
}

/// Trailing blank lines do not change the trimmed join.
pub proof fn lemma_trim_join_blank(ks: Seq<Seq<char>>)
    ensures
        trim_end(join_kept(ks)) == trim_end(join_kept(trunc_blank(ks))),
    decreases ks.len(),
{
    if ks.len() > 0 && ks.last().len() == 0 {
        let a = ks.drop_last();
        let j = join_kept(a);
        assert(j + ks.last() =~= j);
        crate::text::lemma_trim_end_len(j);
        if !(j.len() >= 2 && j[j.len() - 1] == '\n' && j[j.len() - 2] == '\n') {
            assert(join_kept(ks) == j.push('\n'));
            lemma_trim_end_push_ws(j, '\n');
            assert(j.push('\n').take(crate::text::trim_end_len(j)) =~= j.take(
                crate::text::trim_end_len(j),
            ));
        } else {
            assert(join_kept(ks) == j);
        }
        lemma_trim_join_blank(a);
    }
}

/// The trimmed join of clean kept lines: the join of the same lines with
/// their trailing blanks dropped.
pub proof fn lemma_trim_join(ks: Seq<Seq<char>>)
    requires
        forall|j: int| 0 <= j < ks.len() ==> line_clean(#[trigger] ks[j]),
    ensures
        spec_trim_text(join_kept(ks)) == join_kept(trunc_blank(ks)),
{
    lemma_trim_join_blank(ks);
    lemma_trunc_blank_elems(ks);
    let ts = trunc_blank(ks);
    let jt = join_kept(ts);
    if ts.len() == 0 {
        assert(jt.len() == 0);
        assert(crate::text::trim_end_len(jt) == 0);
        assert(trim_end(jt) =~= Seq::<char>::empty());
        assert(trim_end(join_kept(ks)) =~= Seq::<char>::empty());
        assert(spec_trim_text(join_kept(ks)) =~= jt);
    } else {
        let a = ts.drop_last();
        let k = ts.last();
        assert(k.len() > 0);
        assert(k == ks[ts.len() - 1]);
        assert(line_clean(ks[ts.len() - 1]));
        assert(line_clean(k));
        assert(a.push(k) =~= ts);
        lemma_join_kept_nonempty_step(a, k);
        let t = join_kept(a) + k;
        assert(jt == t.push('\n'));
        assert(t.last() == k.last());
        assert(!is_ws(t[t.len() - 1]));
        assert forall|j: int| t.len() <= j < jt.len() implies is_ws(jt[j]) by {
            assert(jt[j] == '\n');
        }
        assert(jt[t.len() - 1] == t[t.len() - 1]);
        crate::text::lemma_trim_end_unique(jt, t.len() as int);
        assert(trim_end(jt) =~= t);
        assert(spec_trim_text(jt) == t.push('\n'));
        assert(trim_end(join_kept(ks)) == trim_end(jt));
        assert(spec_trim_text(join_kept(ks)) == spec_trim_text(jt));
        assert(spec_trim_text(join_kept(ks)) == jt);
    }
}


/// Splitting a lone newline flushes the pending text as one line.
pub proof fn lemma_lines_newline_only(cur: Seq<char>)
    ensures
        lines_acc(seq!['\n'], cur) == seq![strip_cr(cur)],
{
    let s = seq!['\n'];
    assert(s.len() == 1);
    assert(s[0] == '\n');
    assert(s.skip(1) =~= Seq::<char>::empty());
    assert(lines_acc(s.skip(1), Seq::<char>::empty()) =~= Seq::<Seq<char>>::empty());
    assert(lines_acc(s, cur) =~= seq![strip_cr(cur)] + lines_acc(s.skip(1), Seq::<char>::empty()));
    assert(seq![strip_cr(cur)] + Seq::<Seq<char>>::empty() =~= seq![strip_cr(cur)]);
}

/// Splitting distributes over concatenation at a newline boundary.
pub proof fn lemma_lines_acc_append(a: Seq<char>, b: Seq<char>, cur: Seq<char>)
    requires
        a.len() > 0,
        a.last() == '\n',
    ensures
        lines_acc(a + b, cur) == lines_acc(a, cur) + lines_acc(b, Seq::empty()),
    decreases a.len(),
{
    let ab = a + b;
    assert(ab[0] == a[0]);
    if a.len() == 1 {
        assert(a[0] == '\n');
        assert(ab.skip(1) =~= b);
        assert(a.skip(1) =~= Seq::<char>::empty());
        assert(lines_acc(a, cur) =~= seq![strip_cr(cur)]);
        assert(lines_acc(ab, cur) =~= seq![strip_cr(cur)] + lines_acc(b, Seq::empty()));
    } else {
        assert(ab.skip(1) =~= a.skip(1) + b);
        assert(a.skip(1).len() > 0);
        assert(a.skip(1).last() == a.last());
        if a[0] == '\n' {
            lemma_lines_acc_append(a.skip(1), b, Seq::empty());
            assert((seq![strip_cr(cur)] + lines_acc(a.skip(1), Seq::empty())) + lines_acc(
                b,
                Seq::empty(),
            ) =~= seq![strip_cr(cur)] + (lines_acc(a.skip(1), Seq::empty()) + lines_acc(
                b,
                Seq::empty(),
            )));
        } else {
            lemma_lines_acc_append(a.skip(1), b, cur.push(a[0]));
        }
    }
}

/// A newline-free line followed by a newline splits to itself (after the
/// pending text, one carriage return stripped).
pub proof fn lemma_lines_single(k: Seq<char>, cur: Seq<char>)
    requires
        forall|i: int| 0 <= i < k.len() ==> k[i] != '\n',
    ensures
        lines_acc(k + seq!['\n'], cur) == seq![strip_cr(cur + k)],
    decreases k.len(),
{
    let s = k + seq!['\n'];
    if k.len() == 0 {
        assert(s =~= seq!['\n']);
        assert(cur + k =~= cur);
        lemma_lines_newline_only(cur);
        assert(lines_acc(s, cur) == lines_acc(seq!['\n'], cur));
    } else {
        assert(s[0] == k[0]);
        assert(s.skip(1) =~= k.skip(1) + seq!['\n']);
        assert(forall|i: int| 0 <= i < k.len() - 1 ==> k.skip(1)[i] == k[i + 1]);
        lemma_lines_single(k.skip(1), cur.push(k[0]));
        assert(cur.push(k[0]) + k.skip(1) =~= cur + k);
    }
}

/// Splitting the join of clean lines gives back lines that re-join to the
/// same text, each of them blank or one of the joined lines.
pub proof fn lemma_lines_of_join(ks: Seq<Seq<char>>)
    requires
        forall|j: int| 0 <= j < ks.len() ==> line_clean(#[trigger] ks[j]),
    ensures
        join_kept(spec_lines(join_kept(ks))) == join_kept(ks),
        forall|m: int|
            0 <= m < spec_lines(join_kept(ks)).len() ==> (#[trigger] spec_lines(join_kept(ks))[m]).len()
                == 0 || exists|j: int| 0 <= j < ks.len() && ks[j] == spec_lines(join_kept(ks))[m],
    decreases ks.len(),
{
    if ks.len() == 0 {
        assert(join_kept(ks).len() == 0);
        assert(spec_lines(join_kept(ks)) =~= Seq::<Seq<char>>::empty());
    } else {
        let a = ks.drop_last();
        let k = ks.last();
        assert(forall|j: int| 0 <= j < a.len() ==> a[j] == ks[j]);
        lemma_lines_of_join(a);
        let ja = join_kept(a);
        let ma = spec_lines(ja);
        lemma_join_kept_ends_nl(a);
        let jj = join_kept(ks);
        assert(line_clean(k));
        if k.len() > 0 {
            assert(a.push(k) =~= ks);
            lemma_join_kept_nonempty_step(a, k);
            assert(jj == (ja + k).push('\n'));
            assert((ja + k).push('\n') =~= ja + (k + seq!['\n']));
            lemma_lines_single(k, Seq::empty());
            assert(Seq::<char>::empty() + k =~= k);
            assert(k.last() != '\r');
            assert(strip_cr(k) == k);
            if a.len() == 0 {
                assert(ja.len() == 0);
                assert(ja + (k + seq!['\n']) =~= k + seq!['\n']);
                assert(spec_lines(jj) == seq![k]);
                assert(seq![k].drop_last() =~= Seq::<Seq<char>>::empty());
                assert(seq![k].last() == k);
                assert(join_kept(spec_lines(jj)) == spec_keep(join_kept(a), k));
            } else {
                lemma_lines_acc_append(ja, k + seq!['\n'], Seq::empty());
                assert(spec_lines(jj) == ma + seq![k]);
                assert((ma + seq![k]).drop_last() =~= ma);
                assert((ma + seq![k]).last() == k);
                assert(join_kept(spec_lines(jj)) == spec_keep(join_kept(ma), k));
            }
            assert(join_kept(spec_lines(jj)) == jj);
            assert forall|m: int| 0 <= m < spec_lines(jj).len() implies (#[trigger] spec_lines(
                jj,
            )[m]).len() == 0 || exists|j: int|
                0 <= j < ks.len() && ks[j] == spec_lines(jj)[m] by {
                if m < ma.len() {
                    assert(spec_lines(jj)[m] == ma[m]);
                    if ma[m].len() > 0 {
                        let j0 = choose|j0: int| 0 <= j0 < a.len() && a[j0] == ma[m];
                        assert(ks[j0] == spec_lines(jj)[m]);
                    }
                } else {
                    assert(spec_lines(jj)[m] == k);
                    assert(ks[ks.len() - 1] == spec_lines(jj)[m]);
                }
            }
        } else {
            assert(ja + k =~= ja);
            if ja.len() >= 2 && ja[ja.len() - 1] == '\n' && ja[ja.len() - 2] == '\n' {
                assert(jj == ja);
                assert(join_kept(spec_lines(jj)) == ja);
                assert forall|m: int| 0 <= m < spec_lines(jj).len() implies (#[trigger] spec_lines(
                    jj,
                )[m]).len() == 0 || exists|j: int|
                    0 <= j < ks.len() && ks[j] == spec_lines(jj)[m] by {
                    if spec_lines(jj)[m].len() > 0 {
                        let j0 = choose|j0: int| 0 <= j0 < a.len() && a[j0] == spec_lines(jj)[m];
                        assert(ks[j0] == spec_lines(jj)[m]);
                    }
                }
            } else {
                assert(jj == ja.push('\n'));
                assert(ja.push('\n') =~= ja + seq!['\n']);
                lemma_lines_newline_only(Seq::<char>::empty());
                assert(strip_cr(Seq::<char>::empty()) =~= Seq::<char>::empty());
                assert(spec_lines(seq!['\n']) == seq![Seq::<char>::empty()]);
                if ja.len() == 0 {
                    assert(jj =~= seq!['\n']);
                    assert(ma =~= Seq::<Seq<char>>::empty());
                    assert(spec_lines(jj) == seq![Seq::<char>::empty()]);
                    assert(seq![Seq::<char>::empty()].drop_last() =~= Seq::<Seq<char>>::empty());
                } else {
                    lemma_lines_acc_append(ja, seq!['\n'], Seq::empty());
                    assert(spec_lines(jj) == ma + seq![Seq::<char>::empty()]);
                    assert((ma + seq![Seq::<char>::empty()]).drop_last() =~= ma);
                    assert((ma + seq![Seq::<char>::empty()]).last() == Seq::<char>::empty());
                }
                assert(join_kept(spec_lines(jj)) == jj);
                assert forall|m: int| 0 <= m < spec_lines(jj).len() implies (#[trigger] spec_lines(
                    jj,
                )[m]).len() == 0 || exists|j: int|
                    0 <= j < ks.len() && ks[j] == spec_lines(jj)[m] by {
                    if m < ma.len() && spec_lines(jj)[m].len() > 0 {
                        assert(spec_lines(jj)[m] == ma[m]);
                        let j0 = choose|j0: int| 0 <= j0 < a.len() && a[j0] == ma[m];
                        assert(ks[j0] == spec_lines(jj)[m]);
                    }
                }
            }
        }
    }
}

/// The filter keeps an empty line unchanged at every level.
pub proof fn lemma_filter_empty(level: int, ctx: CtxView)
    ensures
        spec_filter(Seq::<char>::empty(), level, ctx) == Some(Seq::<char>::empty()),
{
    reveal_strlit("--> ");
    reveal_strlit("::: ");
    reveal_strlit("error: aborting due to ");
    reveal_strlit("To learn more, run the command again with --verbose.");
    reveal_strlit("error: Could not compile `");
    reveal_strlit("error: could not compile `");
    reveal_strlit("For more information about this error, try `rustc --explain");
    reveal_strlit("Some errors have detailed explanations:");
    reveal_strlit("For more information about an error, try `rustc --explain");
    let e = Seq::<char>::empty();
    assert(trim_start_len(e) == 0);
    assert(e.skip(0) =~= e);
    assert(trim_end(e) =~= e);
    assert(spec_substitute(e, level, ctx) == e);
}

/// Lines that the filter keeps verbatim pass through unchanged.
pub proof fn lemma_kept_identity(lines: Seq<Seq<char>>, ctx: CtxView)
    requires
        forall|i: int|
            0 <= i < lines.len() ==> spec_filter(
                #[trigger] lines[i],
                Normalization::RustLib.ordinal(),
                ctx,
            ) == Some(lines[i]),
    ensures
        kept_of(lines, Normalization::RustLib.ordinal(), ctx) == lines,
    decreases lines.len(),
{
    let rl = Normalization::RustLib.ordinal();
    if lines.len() > 0 {
        assert(forall|i: int| 0 <= i < lines.len() - 1 ==> lines.drop_last()[i] == lines[i]);
        lemma_kept_identity(lines.drop_last(), ctx);
        assert(spec_filter(lines[lines.len() - 1], rl, ctx) == Some(lines[lines.len() - 1]));
        assert(lines.drop_last() + seq![lines.last()] =~= lines);
    }
}

/// Normalization is idempotent at the most aggressive level:
/// re-normalizing an already-fully-normalized text there yields the same
/// text. The hypothesis pins down the texts the statement is about: every
/// line is either dropped by the filter, or rewritten to a clean line (no
/// embedded newline, no trailing whitespace) that a second filtering leaves
/// alone. Raw text outside that set exists, and for it a second pass can
/// differ: the verbose hint followed by trailing blanks is trimmed into the
/// exact hint line, which the next pass drops.
pub proof fn lemma_normalize_idempotent(text: Seq<char>, ctx: CtxView)
    requires
        forall|i: int|
            0 <= i < spec_lines(text).len() ==> line_stable(#[trigger] spec_lines(text)[i], ctx),
    ensures
        ({
            let rl = Normalization::RustLib.ordinal();
            spec_apply(spec_apply(text, rl, ctx), rl, ctx) == spec_apply(text, rl, ctx)
        }),
{
    let rl = Normalization::RustLib.ordinal();
    let lines = spec_lines(text);
    let kk = kept_of(lines, rl, ctx);
    lemma_join_as_kept(lines, rl, ctx);
    lemma_kept_props(lines, ctx);
    let o = spec_apply(text, rl, ctx);
    lemma_trim_join(kk);
    let ts = trunc_blank(kk);
    lemma_trunc_blank_elems(kk);
    assert(o == join_kept(ts));
    assert forall|j: int| 0 <= j < ts.len() implies line_clean(#[trigger] ts[j])
        && spec_stable_line(ts[j], ctx) by {
        assert(ts[j] == kk[j]);
        assert(line_clean(kk[j]) && spec_stable_line(kk[j], ctx));
    }
    lemma_lines_of_join(ts);
    let m = spec_lines(o);
    assert(join_kept(m) == o);
    assert forall|i: int| 0 <= i < m.len() implies spec_filter(#[trigger] m[i], rl, ctx) == Some(
        m[i],
    ) by {
        if m[i].len() == 0 {
            lemma_filter_empty(rl, ctx);
            assert(m[i] =~= Seq::<char>::empty());
        } else {
            let j0 = choose|j0: int| 0 <= j0 < ts.len() && ts[j0] == m[i];
            assert(spec_stable_line(ts[j0], ctx));
        }
    }
    lemma_kept_identity(m, ctx);
    lemma_join_as_kept(m, rl, ctx);
    assert(spec_join(m, rl, ctx) == o);
    lemma_trim_join(ts);
    assert(trunc_blank(ts) == ts);
    assert(spec_trim_text(o) == o);
    assert(spec_apply(o, rl, ctx) == o);
}


/// Trimming trailing whitespace is idempotent.
pub proof fn lemma_trim_end_idempotent(s: Seq<char>)
    ensures
        trim_end(trim_end(s)) == trim_end(s),
{
    crate::text::lemma_trim_end_len(s);
    let t = trim_end(s);
    crate::text::lemma_trim_end_unique(t, t.len() as int);
    assert(t.take(t.len() as int) =~= t);
}

/// Leading whitespace, characterized.
pub proof fn lemma_trim_start_props(s: Seq<char>)
    ensures
        0 <= trim_start_len(s) <= s.len(),
        forall|j: int| 0 <= j < trim_start_len(s) ==> is_ws(s[j]),
        trim_start_len(s) < s.len() ==> !is_ws(s[trim_start_len(s)]),
    decreases s.len(),
{
    if s.len() > 0 && is_ws(s[0]) {
        lemma_trim_start_props(s.skip(1));
        let t = trim_start_len(s);
        assert(t == 1 + trim_start_len(s.skip(1)));
        assert forall|j: int| 0 <= j < t implies is_ws(s[j]) by {
            if j > 0 {
                assert(is_ws(s.skip(1)[j - 1]));
                assert(s.skip(1)[j - 1] == s[j]);
            }
        }
        if t < s.len() {
            assert(!is_ws(s.skip(1)[t - 1]));
            assert(s.skip(1)[t - 1] == s[t]);
        }
    }
}

/// A prefix that reaches past the leading whitespace starts at the same
/// non-whitespace position as the whole.
pub proof fn lemma_trim_start_of_take(s: Seq<char>, n: int)
    requires
        trim_start_len(s) < n <= s.len(),
    ensures
        trim_start_len(s.take(n)) == trim_start_len(s),
{
    lemma_trim_start_props(s);
    let t = s.take(n);
    assert(forall|j: int| 0 <= j < n ==> t[j] == s[j]);
    crate::text::lemma_trim_start_unique(t, trim_start_len(s));
}

/// For an empty context, a line free of newlines that is not rewritten as a
/// location (no location-arrow prefix with a path separator, no
/// secondary-location prefix) and does not merely trim into the exact
/// verbose hint satisfies the stability hypothesis of the idempotence law.
pub proof fn lemma_ordinary_line_stable(line: Seq<char>, ctx: CtxView)
    requires
        ctx.krate.len() == 0,
        ctx.source_dir.len() == 0,
        ctx.workspace.len() == 0,
        forall|i: int| 0 <= i < line.len() ==> line[i] != '\n',
        !(starts_with(line.skip(trim_start_len(line)), "--> "@) && rfind_sep_at(line) is Some),
        !starts_with(line.skip(trim_start_len(line)), "::: "@),
        !(trim_end(line) == "To learn more, run the command again with --verbose."@ && line
            != trim_end(line)),
    ensures
        line_stable(line, ctx),
{
    let rl = Normalization::RustLib.ordinal();
    match spec_filter(line, rl, ctx) {
        None => {},
        Some(l2) => {
            lemma_empty_context_substitution(line, rl, ctx);
            assert(l2 == trim_end(line));
            crate::text::lemma_trim_end_len(line);
            let n = crate::text::trim_end_len(line);
            assert(l2 =~= line.take(n));
            // clean: a subrange of a newline-free line, trimmed at the end
            assert(forall|i: int| 0 <= i < l2.len() ==> l2[i] == line[i]);
            assert(l2.len() > 0 ==> !is_ws(l2.last()));
            assert(line_clean(l2));
            // the second pass sees no location-arrow prefix
            let tsl = trim_start_len(line);
            lemma_trim_start_props(line);
            if starts_with(l2.skip(trim_start_len(l2)), "--> "@) && rfind_sep_at(l2) is Some {
                reveal_strlit("--> ");
                lemma_trim_start_props(l2);
                assert(l2.skip(trim_start_len(l2)).len() == l2.len() - trim_start_len(l2));
                assert(trim_start_len(l2) + 4 <= l2.len());
                assert(trim_start_len(l2) < l2.len());
                assert(tsl < n) by {
                    if n <= tsl {
                        assert(is_ws(l2[trim_start_len(l2)]));
                    }
                }
                lemma_trim_start_of_take(line, n);
                assert(trim_start_len(l2) == tsl);
                assert forall|k: int| 0 <= k < 4 implies line.skip(tsl)[k] == "--> "@[k] by {
                    assert(l2.skip(tsl)[k] == "--> "@[k]);
                    assert(l2.skip(tsl)[k] == l2[tsl + k]);
                    assert(line.skip(tsl)[k] == line[tsl + k]);
                }
                assert(starts_with(line.skip(tsl), "--> "@));
                // so the raw line has no path separator at all
                lemma_rfind_sep_at(line);
                lemma_rfind_sep_at(l2);
                if let Some(p) = rfind_sep_at(l2) {
                    assert(l2[p] == '/' || l2[p] == '\\');
                    assert(line[p] == l2[p]);
                    assert(false);
                }
            }
            // nor a secondary-location prefix
            if starts_with(l2.skip(trim_start_len(l2)), "::: "@) {
                reveal_strlit("::: ");
                lemma_trim_start_props(l2);
                assert(l2.skip(trim_start_len(l2)).len() == l2.len() - trim_start_len(l2));
                assert(trim_start_len(l2) + 4 <= l2.len());
                assert(tsl < n) by {
                    if n <= tsl {
                        assert(is_ws(l2[trim_start_len(l2)]));
                    }
                }
                lemma_trim_start_of_take(line, n);
                assert forall|k: int| 0 <= k < 4 implies line.skip(tsl)[k] == "::: "@[k] by {
                    assert(l2.skip(tsl)[k] == "::: "@[k]);
                    assert(l2.skip(tsl)[k] == l2[tsl + k]);
                    assert(line.skip(tsl)[k] == line[tsl + k]);
                }
                assert(starts_with(line.skip(tsl), "::: "@));
                assert(false);
            }
            // a dropped prefix of the trimmed line is a prefix of the raw
            // line, which the first pass already found absent
            assert forall|p: Seq<char>| starts_with(l2, p) implies starts_with(line, p) by {
                if starts_with(l2, p) {
                    assert forall|k: int| 0 <= k < p.len() implies line[k] == p[k] by {
                        assert(l2[k] == p[k]);
                    }
                }
            }
            if l2 == "To learn more, run the command again with --verbose."@ {
                assert(line == trim_end(line));
                assert(line == "To learn more, run the command again with --verbose."@);
                assert(false);
            }
            lemma_empty_context_substitution(l2, rl, ctx);
            lemma_trim_end_idempotent(line);
            assert(spec_substitute(l2, rl, ctx) == l2);
            assert(spec_filter(l2, rl, ctx) == Some(l2));
            assert(spec_stable_line(l2, ctx));
        },
    }
}

} // verus!
