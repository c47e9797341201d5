//! Deciding which files a dataset or a file search takes: directory pruning, supported
//! files, CSV quoting detection, and the `find` query language
//! (`type:doc`, `.ext`, name words).
use vstd::prelude::*;
use crate::text::{chars_eq, chars_of, string_from_chars, char_is_whitespace, unicode_white_space};
use crate::scan::memchr;
use crate::filter::{run_end, lemma_run_end};

verus! {

/// The Unicode lowercase of a string (`str::to_lowercase`).
pub uninterp spec fn unicode_lower(s: Seq<char>) -> Seq<char>;

/// `str::to_lowercase`: the string with every character replaced by its Unicode lowercase.
#[verifier::external_body]
pub(crate) fn to_lowercase(s: &str) -> (r: String)
    ensures
        r@ == unicode_lower(s@),
{
    s.to_lowercase()
}

/// `needle` occurs in `hay` at `i`.
pub open spec fn text_at(hay: Seq<char>, needle: Seq<char>, i: int) -> bool {
    0 <= i && i + needle.len() <= hay.len() && hay.subrange(i, i + needle.len()) == needle
}

/// `needle` occurs somewhere in `hay` (`str::contains`).
pub open spec fn text_contains(hay: Seq<char>, needle: Seq<char>) -> bool {
    exists|i: int| text_at(hay, needle, i)
}

/// Whether `needle` occurs in `hay`.
pub fn contains_text(hay: &Vec<char>, needle: &Vec<char>) -> (r: bool)
    ensures
        r == text_contains(hay@, needle@),
{
    if needle.len() > hay.len() {
        return false;
    }
    let hlen = hay.len();
    let last = hlen - needle.len();
    let mut i: usize = 0;
    while i <= last
        invariant
            hlen == hay@.len(),
            last + needle@.len() == hay@.len(),
            i <= last + 1,
            forall|j: int| 0 <= j < i ==> !text_at(hay@, needle@, j),
        decreases last + 1 - i,
    {
        let mut k: usize = 0;
        let mut same = true;
        while k < needle.len()
            invariant
                hlen == hay@.len(),
                i <= last,
                last + needle@.len() == hay@.len(),
                k <= needle@.len(),
                same == forall|m: int| 0 <= m < k ==> hay@[i + m] == needle@[m],
            decreases needle.len() - k,
        {
            if hay[i + k] != needle[k] {
                same = false;
            }
            k = k + 1;
        }
        if same {
            proof {
                assert(hay@.subrange(i as int, i + needle@.len()) =~= needle@);
                assert(text_at(hay@, needle@, i as int));
            }
            return true;
        }
        proof {
            let m = choose|m: int| 0 <= m < needle@.len() && hay@[i + m] != needle@[m];
            assert(hay@.subrange(i as int, i + needle@.len())[m] != needle@[m]);
        }
        if i == last {
            proof {
                assert forall|j: int| !text_at(hay@, needle@, j) by {
                    if 0 <= j && j + needle@.len() <= hay@.len() {
                        assert(j <= i);
                    }
                }
            }
            return false;
        }
        i = i + 1;
    }
    false
}

/// A directory is walked into unless it is hidden or one of the usual build and
/// dependency folders (`node_modules`, `target`, `dist`, `build`, `vendor`); a full scan
/// walks everything.
pub open spec fn spec_keep_entry(name: Seq<char>, is_dir: bool, full_scan: bool) -> bool {
    full_scan || !is_dir || !((name.len() > 0 && name[0] == '.') || name == "node_modules"@ || name
        == "target"@ || name == "dist"@ || name == "build"@ || name == "vendor"@)
}

fn same_text(a: &Vec<char>, b: &str) -> (r: bool)
    ensures
        r == (a@ == b@),
{
    let y = chars_of(b);
    if a.len() != y.len() {
        return false;
    }
    let mut i: usize = 0;
    while i < a.len()
        invariant
            y@ == b@,
            a@.len() == y@.len(),
            i <= a@.len(),
            forall|k: int| 0 <= k < i ==> a@[k] == y@[k],
        decreases a.len() - i,
    {
        if a[i] != y[i] {
            return false;
        }
        i = i + 1;
    }
    proof {
        assert(a@ =~= y@);
    }
    true
}

/// Whether a walked entry is kept (see `spec_keep_entry`).
pub fn keep_entry(name: &str, is_dir: bool, full_scan: bool) -> (r: bool)
    ensures
        r == spec_keep_entry(name@, is_dir, full_scan),
{
    if full_scan || !is_dir {
        return true;
    }
    let cs = chars_of(name);
    let hidden = cs.len() > 0 && cs[0] == '.';
    !(hidden || same_text(&cs, "node_modules") || same_text(&cs, "target") || same_text(
        &cs,
        "dist",
    ) || same_text(&cs, "build") || same_text(&cs, "vendor"))
}

/// Extensions read as datasets.
pub open spec fn dataset_extension(ext: Seq<char>) -> bool {
    ext == "csv"@ || ext == "json"@ || ext == "ndjson"@ || ext == "log"@ || ext == "pcap"@ || ext
        == "evtx"@ || ext == "bin"@ || ext == "dat"@ || ext == "img"@
}

/// A path becomes a dataset when a format is forced, when its lowercased extension is a
/// dataset extension, when its lowercased name contains `log` or starts with
/// `snort.log`, or when it is not a directory.
pub open spec fn spec_is_supported(
    forced: bool,
    ext: Seq<char>,
    name: Seq<char>,
    is_dir: bool,
) -> bool {
    let e = unicode_lower(ext);
    let n = unicode_lower(name);
    forced || dataset_extension(e) || text_contains(n, "log"@) || (n.len() >= 9 && n.subrange(0, 9)
        == "snort.log"@) || !is_dir
}

/// Whether a path is opened as a dataset (see `spec_is_supported`).
pub fn is_supported(forced: bool, ext: &str, name: &str, is_dir: bool) -> (r: bool)
    ensures
        r == spec_is_supported(forced, ext@, name@, is_dir),
{
    if forced || !is_dir {
        return true;
    }
    let e = chars_of(to_lowercase(ext).as_str());
    let n = chars_of(to_lowercase(name).as_str());
    let known = same_text(&e, "csv") || same_text(&e, "json") || same_text(&e, "ndjson")
        || same_text(&e, "log") || same_text(&e, "pcap") || same_text(&e, "evtx") || same_text(
        &e,
        "bin",
    ) || same_text(&e, "dat") || same_text(&e, "img");
    if known {
        return true;
    }
    let log = chars_of("log");
    proof {
        reveal_strlit("log");
    }
    if contains_text(&n, &log) {
        return true;
    }
    let snort = chars_of("snort.log");
    proof {
        reveal_strlit("snort.log");
    }
    if n.len() >= 9 {
        let mut k: usize = 0;
        let mut same = true;
        while k < 9
            invariant
                n@.len() >= 9,
                snort@ == "snort.log"@,
                snort@.len() == 9,
                k <= 9,
                same == forall|m: int| 0 <= m < k ==> n@[m] == snort@[m],
            decreases 9 - k,
        {
            if n[k] != snort[k] {
                same = false;
            }
            k = k + 1;
        }
        proof {
            reveal_strlit("snort.log");
            if same {
                assert(n@.subrange(0, 9) =~= "snort.log"@);
            } else {
                let m = choose|m: int| 0 <= m < 9 && n@[m] != snort@[m];
                assert(n@.subrange(0, 9)[m] != "snort.log"@[m]);
            }
        }
        return same;
    }
    false
}

/// Some byte among the first 8192 is a double quote.
pub open spec fn quoted_head(data: Seq<u8>) -> bool {
    exists|i: int| 0 <= i < data.len() && i < 8192 && data[i] == 0x22
}

/// RFC 4180 parsing is used when asked for or when the first 8 KiB contain a quote.
pub fn detect_rfc4180(requested: bool, data: &[u8]) -> (r: bool)
    ensures
        r == (requested || quoted_head(data@)),
{
    if requested {
        return true;
    }
    let n = if data.len() < 8192 {
        data.len()
    } else {
        8192
    };
    let head = &data[0..n];
    let found = memchr(0x22u8, head);
    proof {
        if found is Some {
            assert(head@[found->0 as int] == data@[found->0 as int]);
        } else {
            assert forall|i: int| 0 <= i < data@.len() && i < 8192 implies data@[i] != 0x22 by {
                assert(head@[i] == data@[i]);
            }
        }
    }
    found.is_some()
}


pub open spec fn white_char() -> spec_fn(char) -> bool {
    |c: char| unicode_white_space(c)
}

pub open spec fn word_char_ws() -> spec_fn(char) -> bool {
    |c: char| !unicode_white_space(c)
}

/// The words of `cs[i..]`: maximal runs of characters that are not white space
/// (`str::split_whitespace`).
pub open spec fn words_from(cs: Seq<char>, i: int) -> Seq<Seq<char>>
    decreases cs.len() - i,
    via words_from_decreases
{
    if i < 0 || i >= cs.len() {
        Seq::empty()
    } else {
        let a = run_end(cs, i, white_char());
        if a >= cs.len() {
            Seq::empty()
        } else {
            let b = run_end(cs, a, word_char_ws());
            seq![cs.subrange(a, b)] + words_from(cs, b)
        }
    }
}

#[via_fn]
proof fn words_from_decreases(cs: Seq<char>, i: int) {
    if 0 <= i < cs.len() {
        lemma_run_end(cs, i, white_char());
        let a = run_end(cs, i, white_char());
        if a < cs.len() {
            lemma_run_end(cs, a, word_char_ws());
        }
    }
}

proof fn lemma_words_nonempty(cs: Seq<char>, i: int)
    ensures
        forall|k: int| 0 <= k < words_from(cs, i).len() ==> (#[trigger] words_from(cs, i)[k]).len() > 0,
    decreases cs.len() - i,
{
    if 0 <= i < cs.len() {
        lemma_run_end(cs, i, white_char());
        let a = run_end(cs, i, white_char());
        if a < cs.len() {
            lemma_run_end(cs, a, word_char_ws());
            let b = run_end(cs, a, word_char_ws());
            assert(b > a);
            lemma_words_nonempty(cs, b);
            let ws = words_from(cs, i);
            assert forall|k: int| 0 <= k < ws.len() implies (#[trigger] ws[k]).len() > 0 by {
                if k > 0 {
                    assert(ws[k] == words_from(cs, b)[k - 1]);
                }
            }
        }
    }
}

/// The words of a string, in order.
pub fn split_words(s: &str) -> (r: Vec<Vec<char>>)
    ensures
        r@.map_values(|w: Vec<char>| w@) == words_from(s@, 0),
{
    let cs = chars_of(s);
    let n = cs.len();
    let mut out: Vec<Vec<char>> = Vec::new();
    let mut i: usize = 0;
    while i < n
        invariant
            n == cs@.len(),
            cs@ == s@,
            i <= n,
            out@.map_values(|w: Vec<char>| w@) + words_from(cs@, i as int) == words_from(cs@, 0),
        decreases n - i,
    {
        proof {
            lemma_run_end(cs@, i as int, white_char());
        }
        let mut a = i;
        while a < n && char_is_whitespace(cs[a])
            invariant
                i <= a <= run_end(cs@, i as int, white_char()),
                n == cs@.len(),
                run_end(cs@, i as int, white_char()) <= n,
                forall|k: int| i <= k < run_end(cs@, i as int, white_char()) ==> unicode_white_space(#[trigger] cs@[k]),
                run_end(cs@, i as int, white_char()) < n ==> !unicode_white_space(cs@[run_end(cs@, i as int, white_char())]),
            decreases n - a,
        {
            a = a + 1;
        }
        if a >= n {
            proof {
                assert(words_from(cs@, i as int) =~= Seq::<Seq<char>>::empty());
                assert(out@.map_values(|w: Vec<char>| w@) + words_from(cs@, n as int) =~= words_from(cs@, 0));
            }
            i = n;
        } else {
            proof {
                lemma_run_end(cs@, a as int, word_char_ws());
            }
            let mut b = a;
            let mut w: Vec<char> = Vec::new();
            while b < n && !char_is_whitespace(cs[b])
                invariant
                    a <= b <= run_end(cs@, a as int, word_char_ws()),
                    n == cs@.len(),
                    run_end(cs@, a as int, word_char_ws()) <= n,
                    w@ == cs@.subrange(a as int, b as int),
                    forall|k: int| a <= k < run_end(cs@, a as int, word_char_ws()) ==> !unicode_white_space(#[trigger] cs@[k]),
                    run_end(cs@, a as int, word_char_ws()) < n ==> unicode_white_space(cs@[run_end(cs@, a as int, word_char_ws())]),
                decreases n - b,
            {
                w.push(cs[b]);
                b = b + 1;
                proof {
                    assert(w@ =~= cs@.subrange(a as int, b as int));
                }
            }
            let ghost before = out@;
            out.push(w);
            proof {
                assert(out@.map_values(|w: Vec<char>| w@) =~= before.map_values(|w: Vec<char>| w@).push(
                    cs@.subrange(a as int, b as int),
                ));
                assert(out@.map_values(|w: Vec<char>| w@) + words_from(cs@, b as int) =~= before.map_values(
                    |w: Vec<char>| w@,
                ) + words_from(cs@, i as int));
            }
            i = b;
        }
    }
    proof {
        assert(out@.map_values(|w: Vec<char>| w@) + Seq::<Seq<char>>::empty() =~= out@.map_values(
            |w: Vec<char>| w@,
        ));
    }
    out
}


pub open spec fn doc_exts() -> Seq<Seq<char>> {
    seq![
        "pdf"@, "doc"@, "docx"@, "xls"@, "xlsx"@, "ppt"@, "pptx"@, "txt"@, "rtf"@, "odt"@, "csv"@,
    ]
}

pub open spec fn video_exts() -> Seq<Seq<char>> {
    seq!["mp4"@, "mkv"@, "avi"@, "mov"@, "wmv"@, "flv"@, "webm"@]
}

pub open spec fn audio_exts() -> Seq<Seq<char>> {
    seq!["mp3"@, "wav"@, "flac"@, "ogg"@, "m4a"@]
}

pub open spec fn image_exts() -> Seq<Seq<char>> {
    seq!["jpg"@, "jpeg"@, "png"@, "gif"@, "bmp"@, "svg"@, "webp"@]
}

pub open spec fn code_exts() -> Seq<Seq<char>> {
    seq!["rs"@, "ts"@, "js"@, "py"@, "c"@, "cpp"@, "h"@, "go"@, "java"@, "cs"@, "html"@, "css"@]
}

/// The extensions a `type:` keyword stands for, if `w` (lowercased) is one.
pub open spec fn type_exts(lw: Seq<char>) -> Option<Seq<Seq<char>>> {
    if lw == "type:doc"@ || lw == "type:document"@ {
        Some(doc_exts())
    } else if lw == "type:vid"@ || lw == "type:video"@ {
        Some(video_exts())
    } else if lw == "type:aud"@ || lw == "type:audio"@ {
        Some(audio_exts())
    } else if lw == "type:img"@ || lw == "type:image"@ {
        Some(image_exts())
    } else if lw == "type:code"@ {
        Some(code_exts())
    } else {
        None
    }
}

/// `.ext` with a single dot: asks for that extension.
pub open spec fn is_ext_word(lw: Seq<char>) -> bool {
    lw.len() > 1 && lw[0] == '.' && !lw.drop_first().contains('.')
}

/// What a `find` query asks for: extensions, and a name text (as typed and lowercased).
pub struct FileQueryView {
    pub exts: Seq<Seq<char>>,
    pub name: Seq<char>,
    pub name_lower: Seq<char>,
}

/// The query made of the words `ws`, read in order.
pub open spec fn query_of_words(ws: Seq<Seq<char>>) -> FileQueryView
    decreases ws.len(),
{
    if ws.len() == 0 {
        FileQueryView { exts: Seq::empty(), name: Seq::empty(), name_lower: Seq::empty() }
    } else {
        let q = query_of_words(ws.drop_last());
        let w = ws.last();
        let lw = unicode_lower(w);
        match type_exts(lw) {
            Some(es) => FileQueryView { exts: q.exts + es, ..q },
            None => if is_ext_word(lw) {
                FileQueryView { exts: q.exts.push(lw.drop_first()), ..q }
            } else if q.name.len() == 0 {
                FileQueryView { name: w, name_lower: lw, ..q }
            } else {
                FileQueryView {
                    name: q.name + seq![' '] + w,
                    name_lower: q.name_lower + seq![' '] + lw,
                    ..q
                }
            },
        }
    }
}

/// A parsed `find` query.
pub struct FileQuery {
    pub exts: Vec<String>,
    pub name: String,
    pub name_lower: String,
}

impl View for FileQuery {
    type V = FileQueryView;

    open spec fn view(&self) -> FileQueryView {
        FileQueryView {
            exts: self.exts@.map_values(|e: String| e@),
            name: self.name@,
            name_lower: self.name_lower@,
        }
    }
}

fn push_strs(out: &mut Vec<String>, items: &[&str])
    ensures
        final(out)@.map_values(|e: String| e@) == old(out)@.map_values(|e: String| e@)
            + items@.map_values(|e: &str| e@),
{
    let mut i: usize = 0;
    while i < items.len()
        invariant
            i <= items@.len(),
            out@.map_values(|e: String| e@) == old(out)@.map_values(|e: String| e@)
                + items@.subrange(0, i as int).map_values(|e: &str| e@),
        decreases items.len() - i,
    {
        let ghost before = out@;
        let item = items[i].to_owned();
        out.push(item);
        proof {
            assert(out@.map_values(|e: String| e@) =~= before.map_values(|e: String| e@).push(item@));
            assert(items@.subrange(0, i + 1).map_values(|e: &str| e@) =~= items@.subrange(
                0,
                i as int,
            ).map_values(|e: &str| e@).push(items@[i as int]@));
        }
        i = i + 1;
    }
    proof {
        assert(items@.subrange(0, i as int) =~= items@);
    }
}

fn has_dot_after_first(cs: &Vec<char>) -> (r: bool)
    requires
        cs@.len() >= 1,
    ensures
        r == cs@.drop_first().contains('.'),
{
    let mut k: usize = 1;
    while k < cs.len()
        invariant
            1 <= k <= cs@.len(),
            forall|m: int| 1 <= m < k ==> cs@[m] != '.',
        decreases cs.len() - k,
    {
        if cs[k] == '.' {
            proof {
                assert(cs@.drop_first()[k - 1] == '.');
            }
            return true;
        }
        k = k + 1;
    }
    proof {
        assert forall|m: int| 0 <= m < cs@.drop_first().len() implies cs@.drop_first()[m] != '.' by {
            assert(cs@.drop_first()[m] == cs@[m + 1]);
        }
    }
    false
}

impl FileQuery {
    /// Reads a `find` query: `type:doc|document|vid|video|aud|audio|img|image|code`
    /// add their extensions, `.ext` adds one extension, other words form the name text.
    pub fn parse(query: &str) -> (r: Self)
        ensures
            r@ == query_of_words(words_from(query@, 0)),
    {
        let words = split_words(query);
        let ghost ws = words@.map_values(|w: Vec<char>| w@);
        proof {
            lemma_words_nonempty(query@, 0);
        }
        let mut exts: Vec<String> = Vec::new();
        let mut name: Vec<char> = Vec::new();
        let mut name_lower: Vec<char> = Vec::new();
        let mut i: usize = 0;
        while i < words.len()
            invariant
                i <= words@.len(),
                ws == words@.map_values(|w: Vec<char>| w@),
                forall|k: int| 0 <= k < ws.len() ==> (#[trigger] ws[k]).len() > 0,
                name@.len() == 0 ==> name_lower@.len() == 0,
                ({
                    let q = query_of_words(ws.subrange(0, i as int));
                    &&& exts@.map_values(|e: String| e@) == q.exts
                    &&& name@ == q.name
                    &&& name_lower@ == q.name_lower
                }),
            decreases words.len() - i,
        {
            let ghost q0 = query_of_words(ws.subrange(0, i as int));
            proof {
                assert(ws.subrange(0, i + 1).drop_last() =~= ws.subrange(0, i as int));
                assert(ws.subrange(0, i + 1).last() == words@[i as int]@);
            }
            let w = &words[i];
            let lw_s = to_lowercase(string_from_chars(w.as_slice()).as_str());
            let lw = chars_of(lw_s.as_str());
            if same_text(&lw, "type:doc") || same_text(&lw, "type:document") {
                push_strs(&mut exts, &["pdf", "doc", "docx", "xls", "xlsx", "ppt", "pptx", "txt", "rtf", "odt", "csv"]);
            } else if same_text(&lw, "type:vid") || same_text(&lw, "type:video") {
                push_strs(&mut exts, &["mp4", "mkv", "avi", "mov", "wmv", "flv", "webm"]);
            } else if same_text(&lw, "type:aud") || same_text(&lw, "type:audio") {
                push_strs(&mut exts, &["mp3", "wav", "flac", "ogg", "m4a"]);
            } else if same_text(&lw, "type:img") || same_text(&lw, "type:image") {
                push_strs(&mut exts, &["jpg", "jpeg", "png", "gif", "bmp", "svg", "webp"]);
            } else if same_text(&lw, "type:code") {
                push_strs(&mut exts, &["rs", "ts", "js", "py", "c", "cpp", "h", "go", "java", "cs", "html", "css"]);
            } else if lw.len() > 1 && lw[0] == '.' && !has_dot_after_first(&lw) {
                let ext: Vec<char> = {
                    let mut e: Vec<char> = Vec::new();
                    let mut k: usize = 1;
                    while k < lw.len()
                        invariant
                            1 <= k <= lw@.len(),
                            e@ == lw@.subrange(1, k as int),
                        decreases lw.len() - k,
                    {
                        e.push(lw[k]);
                        k = k + 1;
                        proof {
                            assert(e@ =~= lw@.subrange(1, k as int));
                        }
                    }
                    e
                };
                proof {
                    assert(ext@ =~= lw@.drop_first());
                }
                let ghost before = exts@;
                exts.push(string_from_chars(ext.as_slice()));
                proof {
                    assert(exts@.map_values(|e: String| e@) =~= before.map_values(|e: String| e@).push(ext@));
                }
            } else {
                if name.len() > 0 {
                    name.push(' ');
                    name_lower.push(' ');
                }
                let mut k: usize = 0;
                let ghost n0 = name@;
                while k < w.len()
                    invariant
                        k <= w@.len(),
                        name@ == n0 + w@.subrange(0, k as int),
                    decreases w.len() - k,
                {
                    name.push(w[k]);
                    k = k + 1;
                    proof {
                        assert(name@ =~= n0 + w@.subrange(0, k as int));
                    }
                }
                let mut k2: usize = 0;
                let ghost l0 = name_lower@;
                while k2 < lw.len()
                    invariant
                        k2 <= lw@.len(),
                        name_lower@ == l0 + lw@.subrange(0, k2 as int),
                    decreases lw.len() - k2,
                {
                    name_lower.push(lw[k2]);
                    k2 = k2 + 1;
                    proof {
                        assert(name_lower@ =~= l0 + lw@.subrange(0, k2 as int));
                    }
                }
                proof {
                    assert(w@.subrange(0, k as int) =~= w@);
                    assert(lw@.subrange(0, k2 as int) =~= lw@);
                }
            }
            proof {
                reveal_strlit("type:doc");
                reveal_strlit("type:document");
                reveal_strlit("type:vid");
                reveal_strlit("type:video");
                reveal_strlit("type:aud");
                reveal_strlit("type:audio");
                reveal_strlit("type:img");
                reveal_strlit("type:image");
                reveal_strlit("type:code");
                let q1 = query_of_words(ws.subrange(0, i + 1));
                assert(exts@.map_values(|e: String| e@) =~= q1.exts);
                assert(name@ =~= q1.name);
                assert(name_lower@ =~= q1.name_lower);
            }
            i = i + 1;
        }
        proof {
            assert(ws.subrange(0, i as int) =~= ws);
        }
        FileQuery {
            exts,
            name: string_from_chars(name.as_slice()),
            name_lower: string_from_chars(name_lower.as_slice()),
        }
    }
}


pub open spec fn folded_code(c: char) -> int {
    if 'A' <= c <= 'Z' {
        (c as u32) + 32
    } else {
        c as u32 as int
    }
}

/// Equality ignoring ASCII case (`str::eq_ignore_ascii_case`).
pub open spec fn text_eq_ignore_ascii_case(a: Seq<char>, b: Seq<char>) -> bool {
    a.len() == b.len() && forall|k: int| 0 <= k < a.len() ==> folded_code(#[trigger] a[k]) == folded_code(b[k])
}

fn fold(c: char) -> (r: u32)
    ensures
        r as int == folded_code(c),
{
    if 'A' <= c && c <= 'Z' {
        (c as u32) + 32
    } else {
        c as u32
    }
}

fn eq_ignore_case_text(a: &Vec<char>, b: &Vec<char>) -> (r: bool)
    ensures
        r == text_eq_ignore_ascii_case(a@, b@),
{
    if a.len() != b.len() {
        return false;
    }
    let mut k: usize = 0;
    while k < a.len()
        invariant
            a@.len() == b@.len(),
            k <= a@.len(),
            forall|m: int| 0 <= m < k ==> folded_code(#[trigger] a@[m]) == folded_code(b@[m]),
        decreases a.len() - k,
    {
        if fold(a[k]) != fold(b[k]) {
            return false;
        }
        k = k + 1;
    }
    true
}

/// The extension is present and equals one of `exts`, ignoring ASCII case.
pub open spec fn ext_listed(exts: Seq<Seq<char>>, ext: Option<Seq<char>>) -> bool {
    match ext {
        Some(e) => exists|k: int| 0 <= k < exts.len() && text_eq_ignore_ascii_case(e, #[trigger] exts[k]),
        None => false,
    }
}

/// Whether a walked entry answers a `find` query: the kind filters, then (when
/// extensions are asked for) a file whose extension equals one of them ignoring ASCII
/// case, then (when there is a name text) a name containing it, lowercased unless the
/// search is case-sensitive.
pub open spec fn spec_entry_matches(
    q: FileQueryView,
    is_dir: bool,
    ext: Option<Seq<char>>,
    name: Seq<char>,
    case_sensitive: bool,
    dirs_only: bool,
    files_only: bool,
) -> bool {
    &&& !(files_only && is_dir)
    &&& !(dirs_only && !is_dir)
    &&& (q.exts.len() == 0 || (!is_dir && ext_listed(q.exts, ext)))
    &&& (q.name.len() == 0 || if case_sensitive {
        text_contains(name, q.name)
    } else {
        text_contains(unicode_lower(name), q.name_lower)
    })
}

/// Law: a query word that names no type and no extension is kept as the name text
/// exactly as typed (and lowercased beside it), after the name words before it.
pub proof fn lemma_name_word_as_typed(ws: Seq<Seq<char>>, w: Seq<char>)
    requires
        type_exts(unicode_lower(w)) is None,
        !is_ext_word(unicode_lower(w)),
    ensures
        query_of_words(ws.push(w)).exts == query_of_words(ws).exts,
        query_of_words(ws).name.len() == 0 ==> query_of_words(ws.push(w)).name == w
            && query_of_words(ws.push(w)).name_lower == unicode_lower(w),
        query_of_words(ws).name.len() > 0 ==> query_of_words(ws.push(w)).name == query_of_words(ws).name
            + seq![' '] + w,
{
    assert(ws.push(w).drop_last() =~= ws);
}

/// Law: a case-sensitive search matches names by the query's name text as typed. A
/// name that holds that text anywhere matches (when no extension filter or entry
/// kind rules it out), and a name that matches holds it.
pub proof fn lemma_case_sensitive_name(
    q: FileQueryView,
    is_dir: bool,
    ext: Option<Seq<char>>,
    before: Seq<char>,
    after: Seq<char>,
    name: Seq<char>,
)
    ensures
        q.exts.len() == 0 ==> spec_entry_matches(q, is_dir, ext, before + q.name + after, true, false, false),
        spec_entry_matches(q, is_dir, ext, name, true, false, false) && q.name.len() > 0 ==> exists|i: int|
            0 <= i && i + q.name.len() <= name.len() && #[trigger] name.subrange(i, i + q.name.len()) == q.name,
        q.exts.len() > 0 ==> !spec_entry_matches(q, true, ext, name, true, false, false)
            && !spec_entry_matches(q, true, ext, name, false, false, false),
        !spec_entry_matches(q, true, ext, name, true, false, true),
        !spec_entry_matches(q, false, ext, name, true, true, false),
{
    let full = before + q.name + after;
    assert(full.subrange(before.len() as int, (before.len() + q.name.len()) as int) =~= q.name);
    assert(text_at(full, q.name, before.len() as int));
    if spec_entry_matches(q, is_dir, ext, name, true, false, false) && q.name.len() > 0 {
        let i = choose|i: int| text_at(name, q.name, i);
        assert(name.subrange(i, i + q.name.len()) == q.name);
    }
}

impl FileQuery {
    /// Whether an entry (directory or file, its extension, its name) answers the query.
    pub fn matches(
        &self,
        is_dir: bool,
        ext: Option<&str>,
        name: &str,
        case_sensitive: bool,
        dirs_only: bool,
        files_only: bool,
    ) -> (r: bool)
        ensures
            r == spec_entry_matches(
                self@,
                is_dir,
                match ext {
                    Some(e) => Some(e@),
                    None => None,
                },
                name@,
                case_sensitive,
                dirs_only,
                files_only,
            ),
    {
        if files_only && is_dir {
            return false;
        }
        if dirs_only && !is_dir {
            return false;
        }
        if self.exts.len() > 0 {
            if is_dir {
                return false;
            }
            match ext {
                None => {
                    return false;
                },
                Some(e) => {
                    let ec = chars_of(e);
                    let mut k: usize = 0;
                    let mut found = false;
                    while k < self.exts.len()
                        invariant
                            ec@ == e@,
                            k <= self.exts@.len(),
                            found == exists|j: int|
                                0 <= j < k && text_eq_ignore_ascii_case(
                                    e@,
                                    #[trigger] self@.exts[j],
                                ),
                        decreases self.exts.len() - k,
                    {
                        let xc = chars_of(self.exts[k].as_str());
                        if eq_ignore_case_text(&ec, &xc) {
                            found = true;
                        }
                        proof {
                            assert(self@.exts[k as int] == self.exts@[k as int]@);
                        }
                        k = k + 1;
                    }
                    if !found {
                        return false;
                    }
                },
            }
        }
        if !self.name.as_str().is_empty() {
            let matched = if case_sensitive {
                contains_text(&chars_of(name), &chars_of(self.name.as_str()))
            } else {
                contains_text(&chars_of(to_lowercase(name).as_str()), &chars_of(self.name_lower.as_str()))
            };
            return matched;
        }
        true
    }
}

/// What a `find` walk does with the next entry: stop (the limit is reached), pass it
/// over, or take it with the size it reports (0 for a directory).
#[derive(Clone, Copy, Debug, PartialEq, Eq)]
pub enum FindStep {
    Stop,
    Skip,
    Take(u64),
}

impl FileQuery {
    /// The next step of a `find` walk that has `found` results so far, at an entry
    /// (directory or file, extension, name, length in bytes).
    pub fn find_step(
        &self,
        found: usize,
        limit: usize,
        is_dir: bool,
        ext: Option<&str>,
        name: &str,
        len: u64,
        case_sensitive: bool,
        dirs_only: bool,
        files_only: bool,
    ) -> (r: FindStep)
        ensures
            r == (if found >= limit {
                FindStep::Stop
            } else if !spec_entry_matches(
                self@,
                is_dir,
                match ext {
                    Some(e) => Some(e@),
                    None => None,
                },
                name@,
                case_sensitive,
                dirs_only,
                files_only,
            ) {
                FindStep::Skip
            } else if is_dir {
                FindStep::Take(0)
            } else {
                FindStep::Take(len)
            }),
    {
        if found >= limit {
            FindStep::Stop
        } else if !self.matches(is_dir, ext, name, case_sensitive, dirs_only, files_only) {
            FindStep::Skip
        } else if is_dir {
            FindStep::Take(0)
        } else {
            FindStep::Take(len)
        }
    }
}

/// A file that is read through a decompressor: extension `gz`, `zst`, `zstd` or `xz`
/// (compared as written).
pub fn is_compressed_ext(ext: &str) -> (r: bool)
    ensures
        r == (ext@ == "gz"@ || ext@ == "zst"@ || ext@ == "zstd"@ || ext@ == "xz"@),
{
    let e = chars_of(ext);
    let gz = chars_of("gz");
    let zst = chars_of("zst");
    let zstd = chars_of("zstd");
    let xz = chars_of("xz");
    chars_eq(e.as_slice(), gz.as_slice()) || chars_eq(e.as_slice(), zst.as_slice()) || chars_eq(
        e.as_slice(),
        zstd.as_slice(),
    ) || chars_eq(e.as_slice(), xz.as_slice())
}

} // verus!
