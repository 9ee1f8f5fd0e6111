//! File indexer: which files to index, and how a file's text is cut into
//! chunks of lines.

use vstd::prelude::*;

use crate::text::{
    all_white, concat, has_substring, is_all_white, occurs_at, split_words, str_contains,
    str_equal, string_from, to_chars, trim,
};

verus! {

// ---------------------------------------------------------------------------
// Configuration and results
// ---------------------------------------------------------------------------

/// What to index: the root, which names to take and which to skip, and the
/// chunking parameters (target size in words, lines of overlap).
pub struct FileIndexerConfig {
    pub root_path: String,
    pub include_patterns: Vec<String>,
    pub exclude_patterns: Vec<String>,
    pub chunk_size: usize,
    pub chunk_overlap: usize,
}

impl FileIndexerConfig {
    /// The current directory, Markdown files, skipping `.git`, `node_modules`
    /// and `__pycache__`, chunks of 400 words with 80 lines of overlap.
    pub fn default() -> (c: FileIndexerConfig)
        ensures
            c.root_path@ == "."@,
            c.include_patterns@.len() == 1 && c.include_patterns@[0]@ == "*.md"@,
            c.exclude_patterns@.len() == 3 && c.exclude_patterns@[0]@ == ".git/**"@
                && c.exclude_patterns@[1]@ == "node_modules/**"@ && c.exclude_patterns@[2]@
                == "__pycache__/**"@,
            c.chunk_size == 400,
            c.chunk_overlap == 80,
    {
        let mut wanted: Vec<String> = Vec::new();
        wanted.push("*.md".to_owned());
        let mut exclude: Vec<String> = Vec::new();
        exclude.push(".git/**".to_owned());
        exclude.push("node_modules/**".to_owned());
        exclude.push("__pycache__/**".to_owned());
        FileIndexerConfig {
            root_path: ".".to_owned(),
            include_patterns: wanted,
            exclude_patterns: exclude,
            chunk_size: 400,
            chunk_overlap: 80,
        }
    }
}

/// A chunk of a file: its position among the chunks, its text, and the lines
/// it is labelled with.
pub struct FileChunk {
    pub index: usize,
    pub content: String,
    pub start_line: usize,
    pub end_line: usize,
}

/// An indexed file.
pub struct IndexedFile {
    pub path: String,
    pub content: String,
    pub chunks: Vec<FileChunk>,
    pub last_modified: String,
    pub size: usize,
}

/// The outcome of indexing a tree of files.
pub struct IndexResult {
    pub total_files: usize,
    pub total_chunks: usize,
    pub errors: Vec<String>,
    pub indexed_paths: Vec<String>,
}

impl IndexResult {
    /// Nothing indexed yet.
    pub fn new() -> (r: IndexResult)
        ensures
            r.total_files == 0 && r.total_chunks == 0 && r.errors@.len() == 0
                && r.indexed_paths@.len() == 0,
    {
        IndexResult { total_files: 0, total_chunks: 0, errors: Vec::new(), indexed_paths: Vec::new() }
    }

    /// Counts an indexed file and its chunks, and records its path.
    pub fn record_file(&mut self, file: &IndexedFile)
        requires
            old(self).total_files < usize::MAX,
            old(self).total_chunks + file.chunks@.len() <= usize::MAX,
        ensures
            final(self).total_files == old(self).total_files + 1,
            final(self).total_chunks == old(self).total_chunks + file.chunks@.len(),
            final(self).errors@ == old(self).errors@,
            final(self).indexed_paths@.len() == old(self).indexed_paths@.len() + 1,
            final(self).indexed_paths@.take(old(self).indexed_paths@.len() as int)
                == old(self).indexed_paths@,
            final(self).indexed_paths@.last()@ == file.path@,
    {
        self.total_files = self.total_files + 1;
        self.total_chunks = self.total_chunks + file.chunks.len();
        let ghost before = self.indexed_paths@;
        self.indexed_paths.push(file.path.clone());
        assert(self.indexed_paths@.take(before.len() as int) =~= before);
    }

    /// Records an error message.
    pub fn record_error(&mut self, message: String)
        ensures
            final(self).total_files == old(self).total_files,
            final(self).total_chunks == old(self).total_chunks,
            final(self).errors@ == old(self).errors@.push(message),
            final(self).indexed_paths@ == old(self).indexed_paths@,
    {
        self.errors.push(message);
    }
}

// ---------------------------------------------------------------------------
// Lines
// ---------------------------------------------------------------------------

/// A line without its `\r` terminator, if it has one.
pub open spec fn strip_cr(line: Seq<char>) -> Seq<char> {
    if line.len() > 0 && line.last() == '\r' {
        line.drop_last()
    } else {
        line
    }
}

/// Lines completed within the first `n` characters, and the line being read.
pub open spec fn scan_lines(s: Seq<char>, n: int) -> (Seq<Seq<char>>, Seq<char>)
    decreases n,
{
    if n <= 0 {
        (Seq::empty(), Seq::empty())
    } else {
        let (done, cur) = scan_lines(s, n - 1);
        if s[n - 1] == '\n' {
            (done.push(strip_cr(cur)), Seq::empty())
        } else {
            (done, cur.push(s[n - 1]))
        }
    }
}

/// `str::lines`: the text split at each `\n`, a `\r` before it removed, with
/// no empty line after a final `\n`.
pub open spec fn lines_of(s: Seq<char>) -> Seq<Seq<char>> {
    let (done, cur) = scan_lines(s, s.len() as int);
    if cur.len() > 0 {
        done.push(cur)
    } else {
        done
    }
}

/// The lines of a text.
pub fn split_lines(s: &str) -> (lines: Vec<Vec<char>>)
    ensures
        lines@.map_values(|l: Vec<char>| l@) == lines_of(s@),
{
    let v = to_chars(s);
    let mut lines: Vec<Vec<char>> = Vec::new();
    let mut cur: Vec<char> = Vec::new();
    let mut i: usize = 0;
    while i < v.len()
        invariant
            i <= v.len(),
            lines@.map_values(|l: Vec<char>| l@) == scan_lines(v@, i as int).0,
            cur@ == scan_lines(v@, i as int).1,
        decreases v.len() - i,
    {
        if v[i] == '\n' {
            if cur.len() > 0 && cur[cur.len() - 1] == '\r' {
                cur.pop();
            }
            let ghost prev = lines@;
            let ghost c = cur@;
            lines.push(cur);
            assert(lines@.map_values(|l: Vec<char>| l@) =~= prev.map_values(|l: Vec<char>| l@).push(c));
            cur = Vec::new();
        } else {
            cur.push(v[i]);
        }
        i += 1;
    }
    if cur.len() > 0 {
        let ghost prev = lines@;
        let ghost c = cur@;
        lines.push(cur);
        assert(lines@.map_values(|l: Vec<char>| l@) =~= prev.map_values(|l: Vec<char>| l@).push(c));
    }
    lines
}

// ---------------------------------------------------------------------------
// Chunking
// ---------------------------------------------------------------------------

/// A chunk as mathematical values.
pub struct ChunkView {
    pub index: int,
    pub content: Seq<char>,
    pub start_line: int,
    pub end_line: int,
}

/// The chunking state: chunks made so far, the text gathered, its estimated
/// words, and the line the next chunk is labelled to start at.
pub struct ChunkState {
    pub chunks: Seq<ChunkView>,
    pub current: Seq<char>,
    pub tokens: int,
    pub start: int,
}

/// The estimated words of a line: its whitespace-separated words, at least one.
pub open spec fn line_tokens(line: Seq<char>) -> int {
    let n = split_words(line).len() as int;
    if n > 1 {
        n
    } else {
        1
    }
}

/// The state after line `index` is read: the line and a `\n` are gathered; a
/// chunk is closed when the gathered words reach `size` or the line is empty.
/// The next chunk is labelled to start after the closed one, less up to
/// `overlap` lines.
pub open spec fn chunk_step(st: ChunkState, index: int, line: Seq<char>, size: int, overlap: int) -> ChunkState {
    let current = st.current + line + seq!['\n'];
    let tokens = st.tokens + line_tokens(line);
    if tokens >= size || (line.len() == 0 && tokens > 0) {
        let span = if index >= st.start {
            index - st.start
        } else {
            0
        };
        let back = if overlap < span {
            overlap
        } else {
            span
        };
        let next_start = if index >= back {
            index - back
        } else {
            0
        };
        ChunkState {
            chunks: st.chunks.push(
                ChunkView { index: st.chunks.len() as int, content: current, start_line: st.start, end_line: index },
            ),
            current: Seq::empty(),
            tokens: 0,
            start: next_start + 1,
        }
    } else {
        ChunkState { current, tokens, ..st }
    }
}

/// The state after the first `n` lines.
pub open spec fn chunk_scan(lines: Seq<Seq<char>>, n: int, size: int, overlap: int) -> ChunkState
    decreases n,
{
    if n <= 0 {
        ChunkState { chunks: Seq::empty(), current: Seq::empty(), tokens: 0, start: 0 }
    } else {
        chunk_step(chunk_scan(lines, n - 1, size, overlap), n - 1, lines[n - 1], size, overlap)
    }
}

/// The chunks of a text: those closed while reading its lines, and a last one
/// with the rest when that is not blank.
pub open spec fn chunks_spec(content: Seq<char>, size: int, overlap: int) -> Seq<ChunkView> {
    let lines = lines_of(content);
    let st = chunk_scan(lines, lines.len() as int, size, overlap);
    if trim(st.current).len() > 0 {
        st.chunks.push(
            ChunkView {
                index: st.chunks.len() as int,
                content: st.current,
                start_line: st.start,
                end_line: lines.len() as int,
            },
        )
    } else {
        st.chunks
    }
}

/// A chunk as mathematical values.
pub open spec fn chunk_view(c: FileChunk) -> ChunkView {
    ChunkView {
        index: c.index as int,
        content: c.content@,
        start_line: c.start_line as int,
        end_line: c.end_line as int,
    }
}

/// The views of a list of chunks.
pub open spec fn chunk_views(v: Seq<FileChunk>) -> Seq<ChunkView> {
    v.map_values(|c: FileChunk| chunk_view(c))
}

/// Appends the characters of `b` to `a`.
fn append_chars(a: &mut Vec<char>, b: &Vec<char>)
    ensures
        final(a)@ == old(a)@ + b@,
{
    let mut i: usize = 0;
    let ghost start = a@;
    while i < b.len()
        invariant
            i <= b.len(),
            a@ == start + b@.take(i as int),
        decreases b.len() - i,
    {
        a.push(b[i]);
        assert(b@.take(i + 1) =~= b@.take(i as int).push(b@[i as int]));
        i += 1;
    }
    assert(b@.take(b@.len() as int) =~= b@);
}

/// The number of whitespace-separated words of a line.
fn count_words(line: &Vec<char>) -> (n: usize)
    ensures
        n == split_words(line@).len(),
{
    let s = string_from(line);
    crate::text::split_whitespace(s.as_str()).len()
}

/// `n`, capped at `usize::MAX`.
pub open spec fn cap_usize(n: int) -> int {
    if n > usize::MAX {
        usize::MAX as int
    } else {
        n
    }
}

/// A chunk with the given parts.
fn make_chunk(index: usize, content: &Vec<char>, start_line: usize, end_line: usize) -> (c: FileChunk)
    ensures
        chunk_view(c) == (ChunkView {
            index: index as int,
            content: content@,
            start_line: start_line as int,
            end_line: end_line as int,
        }),
{
    FileChunk { index, content: string_from(content), start_line, end_line }
}

// ---------------------------------------------------------------------------
// Path patterns
// ---------------------------------------------------------------------------

/// `pat` starts `s`.
pub open spec fn starts_with(s: Seq<char>, pat: Seq<char>) -> bool {
    pat.len() <= s.len() && s.take(pat.len() as int) == pat
}

/// `pat` ends `s`.
pub open spec fn ends_with(s: Seq<char>, pat: Seq<char>) -> bool {
    pat.len() <= s.len() && s.skip(s.len() - pat.len()) == pat
}

/// `str::trim_start_matches`: every leading repetition of `pat` removed.
pub open spec fn trim_start_all(s: Seq<char>, pat: Seq<char>) -> Seq<char>
    decreases s.len(),
{
    if pat.len() > 0 && starts_with(s, pat) {
        trim_start_all(s.skip(pat.len() as int), pat)
    } else {
        s
    }
}

/// `str::trim_end_matches`: every trailing repetition of `pat` removed.
pub open spec fn trim_end_all(s: Seq<char>, pat: Seq<char>) -> Seq<char>
    decreases s.len(),
{
    if pat.len() > 0 && ends_with(s, pat) {
        trim_end_all(s.take(s.len() - pat.len()), pat)
    } else {
        s
    }
}

/// What an exclude pattern matches: with `**` in it, the pattern without
/// leading `**/` and trailing `/**`; otherwise the pattern itself.
pub open spec fn exclude_base(pattern: Seq<char>) -> Seq<char> {
    if has_substring(pattern, "**"@) {
        trim_end_all(trim_start_all(pattern, "**/"@), "/**"@)
    } else {
        pattern
    }
}

/// Some exclude pattern's base is part of the path.
pub open spec fn excluded_by(patterns: Seq<Seq<char>>, path: Seq<char>) -> bool {
    exists|i: int| 0 <= i < patterns.len() && has_substring(path, exclude_base(#[trigger] patterns[i]))
}

/// What `std::path::Path::extension` returns for a path, as text.
pub uninterp spec fn extension_of(path: Seq<char>) -> Option<Seq<char>>;

/// What `std::path::Path::file_name` returns for a path, as text.
pub uninterp spec fn file_name_of(path: Seq<char>) -> Option<Seq<char>>;

/// `Path::new(path).extension()` as a string (`None` when there is none).
/// Claimed: the result is the name `extension_of` of the path; std's rules
/// for extensions are not written out.
#[verifier::external_body]
fn path_extension(path: &str) -> (r: Option<String>)
    ensures
        r matches Some(e) ==> extension_of(path@) == Some(e@),
        r is None ==> extension_of(path@) is None,
{
    std::path::Path::new(path).extension().and_then(|e| e.to_str()).map(|e| e.to_string())
}

/// `Path::new(path).file_name()` as a string (`None` when there is none).
/// Claimed: the result is the name `file_name_of` of the path.
#[verifier::external_body]
fn path_file_name(path: &str) -> (r: Option<String>)
    ensures
        r matches Some(n) ==> file_name_of(path@) == Some(n@),
        r is None ==> file_name_of(path@) is None,
{
    std::path::Path::new(path).file_name().and_then(|n| n.to_str()).map(|n| n.to_string())
}

/// The code of a character's ASCII lowercase form.
pub open spec fn ascii_lower(c: char) -> int {
    let u = c as u32;
    if 'A' <= c && c <= 'Z' {
        u + 32
    } else {
        u as int
    }
}

/// `str::eq_ignore_ascii_case`.
pub open spec fn eq_ignore_ascii_case(a: Seq<char>, b: Seq<char>) -> bool {
    a.len() == b.len() && forall|i: int| 0 <= i < a.len() ==> ascii_lower(#[trigger] a[i]) == ascii_lower(b[i])
}

/// A wanted-name pattern accepts a file: `*.md` accepts the extension `md` in
/// any ASCII case; any pattern accepts a file of exactly that name.
pub open spec fn included_by(pattern: Seq<char>, path: Seq<char>) -> bool {
    (pattern == "*.md"@ && eq_ignore_ascii_case(extension_or_empty(path), "md"@)) || file_name_of(path)
        == Some(pattern)
}

/// The extension of a path, or empty when it has none.
pub open spec fn extension_or_empty(path: Seq<char>) -> Seq<char> {
    match extension_of(path) {
        Some(e) => e,
        None => Seq::empty(),
    }
}

/// A file is indexed: not excluded, and accepted by some wanted-name pattern.
pub open spec fn indexed_by(includes: Seq<Seq<char>>, excludes: Seq<Seq<char>>, path: Seq<char>) -> bool {
    !excluded_by(excludes, path) && exists|i: int| 0 <= i < includes.len() && included_by(#[trigger] includes[i], path)
}

/// Removes every leading repetition of `pat`.
fn trim_start_matches(s: &Vec<char>, pat: &Vec<char>) -> (r: Vec<char>)
    ensures
        r@ == trim_start_all(s@, pat@),
{
    let mut i: usize = 0;
    assert(s@.skip(0) =~= s@);
    while pat.len() > 0 && crate::text::matches_at(s, pat, i)
        invariant
            i <= s.len(),
            trim_start_all(s@, pat@) == trim_start_all(s@.skip(i as int), pat@),
        decreases s.len() - i,
    {
        assert(s@.skip(i as int).take(pat@.len() as int) =~= s@.subrange(i as int, i + pat@.len()));
        assert(s@.skip(i as int).skip(pat@.len() as int) =~= s@.skip(i + pat@.len()));
        i = i + pat.len();
    }
    proof {
        if pat@.len() > 0 && starts_with(s@.skip(i as int), pat@) {
            assert(s@.skip(i as int).take(pat@.len() as int) =~= s@.subrange(i as int, i + pat@.len()));
        }
    }
    let n = s.len();
    let r = crate::text::slice_chars(s, i, n);
    assert(r@ =~= s@.skip(i as int));
    r
}

/// Removes every trailing repetition of `pat`.
fn trim_end_matches(s: &Vec<char>, pat: &Vec<char>) -> (r: Vec<char>)
    ensures
        r@ == trim_end_all(s@, pat@),
{
    let mut j: usize = s.len();
    assert(s@.take(s@.len() as int) =~= s@);
    while pat.len() > 0 && pat.len() <= j && crate::text::matches_at(s, pat, j - pat.len())
        invariant
            j <= s.len(),
            trim_end_all(s@, pat@) == trim_end_all(s@.take(j as int), pat@),
        decreases j,
    {
        assert(s@.take(j as int).skip(j - pat@.len()) =~= s@.subrange(j - pat@.len(), j as int));
        assert(s@.take(j as int).take(j - pat@.len()) =~= s@.take(j - pat@.len()));
        j = j - pat.len();
    }
    proof {
        if pat@.len() > 0 && ends_with(s@.take(j as int), pat@) {
            assert(s@.take(j as int).skip(j - pat@.len()) =~= s@.subrange(j - pat@.len(), j as int));
        }
    }
    let r = crate::text::slice_chars(s, 0, j);
    assert(r@ =~= s@.take(j as int));
    r
}

/// Two texts are equal up to ASCII case.
fn equal_ignore_ascii_case(a: &Vec<char>, b: &Vec<char>) -> (r: bool)
    ensures
        r == eq_ignore_ascii_case(a@, b@),
{
    if a.len() != b.len() {
        return false;
    }
    let mut i: usize = 0;
    while i < a.len()
        invariant
            a.len() == b.len(),
            i <= a.len(),
            forall|j: int| 0 <= j < i ==> ascii_lower(#[trigger] a@[j]) == ascii_lower(b@[j]),
        decreases a.len() - i,
    {
        let x = a[i];
        let y = b[i];
        let lx: u32 = if 'A' <= x && x <= 'Z' {
            (x as u32) + 32
        } else {
            x as u32
        };
        let ly: u32 = if 'A' <= y && y <= 'Z' {
            (y as u32) + 32
        } else {
            y as u32
        };
        if lx != ly {
            return false;
        }
        i += 1;
    }
    true
}

// ---------------------------------------------------------------------------
// The indexer
// ---------------------------------------------------------------------------

/// Indexes files as its configuration says.
pub struct FileIndexer {
    config: FileIndexerConfig,
}

impl FileIndexer {
    /// An indexer with the given configuration.
    pub fn new(config: FileIndexerConfig) -> (f: FileIndexer)
        ensures
            f.config() == config,
    {
        FileIndexer { config }
    }

    /// The configuration.
    pub closed spec fn config(&self) -> FileIndexerConfig {
        self.config
    }

    /// The configuration.
    pub fn get_config(&self) -> (c: &FileIndexerConfig)
        ensures
            *c == self.config(),
    {
        &self.config
    }

    /// The chunks of a file's text (see `chunks_spec`).
    pub fn generate_chunks(&self, content: &str) -> (chunks: Vec<FileChunk>)
        ensures
            chunk_views(chunks@) == chunks_spec(
                content@,
                self.config().chunk_size as int,
                self.config().chunk_overlap as int,
            ),
    {
        let size = self.config.chunk_size;
        let overlap = self.config.chunk_overlap;
        let lines = split_lines(content);
        let ghost ls = lines@.map_values(|l: Vec<char>| l@);
        let mut chunks: Vec<FileChunk> = Vec::new();
        let mut current: Vec<char> = Vec::new();
        let mut tokens: usize = 0;
        let mut start: usize = 0;
        let mut index: usize = 0;
        while index < lines.len()
            invariant
                index <= lines.len(),
                ls == lines@.map_values(|l: Vec<char>| l@),
                ls == lines_of(content@),
                size == self.config().chunk_size,
                overlap == self.config().chunk_overlap,
                ({
                    let st = chunk_scan(ls, index as int, size as int, overlap as int);
                    &&& chunk_views(chunks@) == st.chunks
                    &&& current@ == st.current
                    &&& tokens as int == cap_usize(st.tokens)
                    &&& start as int == st.start
                    &&& st.tokens >= 0
                    &&& 0 <= st.start <= index
                }),
            decreases lines.len() - index,
        {
            let line = &lines[index];
            let ghost st = chunk_scan(ls, index as int, size as int, overlap as int);
            assert(ls[index as int] == line@);
            let words = count_words(line);
            let estimated = if words > 1 {
                words
            } else {
                1
            };
            assert(estimated as int == line_tokens(line@));
            let ghost st2 = chunk_step(st, index as int, line@, size as int, overlap as int);
            assert(chunk_scan(ls, index + 1, size as int, overlap as int) == st2);
            append_chars(&mut current, line);
            current.push('\n');
            assert(current@ =~= st.current + line@ + seq!['\n']);
            tokens = tokens.saturating_add(estimated);
            assert(tokens as int == cap_usize(st.tokens + line_tokens(line@)));
            assert((tokens >= size) == (st.tokens + line_tokens(line@) >= size));
            if tokens >= size || (line.len() == 0 && tokens > 0) {
                let span = if index >= start {
                    index - start
                } else {
                    0
                };
                let back = if overlap < span {
                    overlap
                } else {
                    span
                };
                let c = make_chunk(chunks.len(), &current, start, index);
                let ghost prev = chunks@;
                chunks.push(c);
                assert(chunk_views(chunks@) =~= chunk_views(prev).push(chunk_view(c)));
                start = index - back + 1;
                current = Vec::new();
                tokens = 0;
                assert(current@ =~= Seq::<char>::empty());
                assert(chunk_views(chunks@) == st2.chunks);
                assert(start as int == st2.start);
            } else {
                assert(chunk_views(chunks@) == st2.chunks);
                assert(current@ == st2.current);
            }
            index += 1;
        }
        let ghost st = chunk_scan(ls, lines.len() as int, size as int, overlap as int);
        let rest = string_from(&current);
        if !crate::text::trim_str(rest.as_str()).as_str().is_empty() {
            let c = make_chunk(chunks.len(), &current, start, lines.len());
            let ghost prev = chunks@;
            chunks.push(c);
            assert(chunk_views(chunks@) =~= chunk_views(prev).push(chunk_view(c)));
        }
        chunks
    }

    /// The path is excluded: some exclude pattern's base is part of it.
    pub fn should_exclude(&self, path: &str) -> (b: bool)
        ensures
            b == excluded_by(crate::text::texts(self.config().exclude_patterns@), path@),
    {
        let patterns = &self.config.exclude_patterns;
        let pv = to_chars(path);
        let star = to_chars("**");
        let lead = to_chars("**/");
        let tail = to_chars("/**");
        let ghost ps = crate::text::texts(patterns@);
        let mut i: usize = 0;
        while i < patterns.len()
            invariant
                i <= patterns.len(),
                ps == crate::text::texts(patterns@),
                ps == crate::text::texts(self.config().exclude_patterns@),
                pv@ == path@,
                star@ == "**"@,
                lead@ == "**/"@,
                tail@ == "/**"@,
                forall|j: int| 0 <= j < i ==> !has_substring(path@, exclude_base(#[trigger] ps[j])),
            decreases patterns.len() - i,
        {
            let p = to_chars(patterns[i].as_str());
            assert(ps[i as int] == p@);
            let base = if crate::text::contains(&p, &star) {
                trim_end_matches(&trim_start_matches(&p, &lead), &tail)
            } else {
                p
            };
            assert(base@ == exclude_base(ps[i as int]));
            if crate::text::contains(&pv, &base) {
                assert(has_substring(path@, exclude_base(ps[i as int])));
                assert(excluded_by(ps, path@));
                return true;
            }
            i += 1;
        }
        false
    }

    /// The file is indexed (see `indexed_by`).
    pub fn should_index(&self, path: &str) -> (b: bool)
        ensures
            b == indexed_by(
                crate::text::texts(self.config().include_patterns@),
                crate::text::texts(self.config().exclude_patterns@),
                path@,
            ),
    {
        if self.should_exclude(path) {
            return false;
        }
        let ext = match path_extension(path) {
            Some(e) => to_chars(e.as_str()),
            None => Vec::new(),
        };
        let name = path_file_name(path);
        let md = to_chars("md");
        let patterns = &self.config.include_patterns;
        let ghost ps = crate::text::texts(patterns@);
        let ghost ev = extension_or_empty(path@);
        assert(ext@ == ev);
        let mut i: usize = 0;
        while i < patterns.len()
            invariant
                i <= patterns.len(),
                ps == crate::text::texts(patterns@),
                ps == crate::text::texts(self.config().include_patterns@),
                !excluded_by(crate::text::texts(self.config().exclude_patterns@), path@),
                ext@ == ev,
                ev == extension_or_empty(path@),
                md@ == "md"@,
                name matches Some(n) ==> file_name_of(path@) == Some(n@),
                name is None ==> file_name_of(path@) is None,
                forall|j: int| 0 <= j < i ==> !included_by(#[trigger] ps[j], path@),
            decreases patterns.len() - i,
        {
            let p = &patterns[i];
            assert(ps[i as int] == p@);
            let by_extension = str_equal(p.as_str(), "*.md") && equal_ignore_ascii_case(&ext, &md);
            let by_name = match &name {
                Some(n) => str_equal(n.as_str(), p.as_str()),
                None => false,
            };
            assert(by_extension == (p@ == "*.md"@ && eq_ignore_ascii_case(ev, "md"@)));
            assert(by_name == (file_name_of(path@) == Some(p@)));
            assert((by_extension || by_name) == included_by(ps[i as int], path@));
            if by_extension || by_name {
                return true;
            }
            i += 1;
        }
        false
    }

    /// An indexed file from what was read: its chunks are cut from its text.
    pub fn build_indexed_file(
        &self,
        path: String,
        content: String,
        last_modified: String,
        size: usize,
    ) -> (f: IndexedFile)
        ensures
            f.path == path,
            f.content == content,
            f.last_modified == last_modified,
            f.size == size,
            chunk_views(f.chunks@) == chunks_spec(
                content@,
                self.config().chunk_size as int,
                self.config().chunk_overlap as int,
            ),
    {
        let chunks = self.generate_chunks(content.as_str());
        IndexedFile { path, content, chunks, last_modified, size }
    }
}


// ---------------------------------------------------------------------------
// Laws
// ---------------------------------------------------------------------------

/// The texts of the chunks, one after another.
pub open spec fn chunk_texts(cs: Seq<ChunkView>) -> Seq<char>
    decreases cs.len(),
{
    if cs.len() == 0 {
        Seq::empty()
    } else {
        chunk_texts(cs.drop_last()) + cs.last().content
    }
}

/// The first `n` lines, each followed by `\n`.
pub open spec fn joined_lines(lines: Seq<Seq<char>>, n: int) -> Seq<char>
    decreases n,
{
    if n <= 0 {
        Seq::empty()
    } else {
        joined_lines(lines, n - 1) + lines[n - 1] + seq!['\n']
    }
}

proof fn lemma_scan_keeps_text(lines: Seq<Seq<char>>, n: int, size: int, overlap: int)
    requires
        0 <= n <= lines.len(),
    ensures
        ({
            let st = chunk_scan(lines, n, size, overlap);
            &&& chunk_texts(st.chunks) + st.current == joined_lines(lines, n)
            &&& forall|i: int| 0 <= i < st.chunks.len() ==> (#[trigger] st.chunks[i]).index == i
        }),
    decreases n,
{
    if n > 0 {
        lemma_scan_keeps_text(lines, n - 1, size, overlap);
        let st = chunk_scan(lines, n - 1, size, overlap);
        let st2 = chunk_scan(lines, n, size, overlap);
        let line = lines[n - 1];
        if st2.chunks.len() > st.chunks.len() {
            assert(st2.chunks.drop_last() =~= st.chunks);
            assert(chunk_texts(st2.chunks) =~= chunk_texts(st.chunks) + (st.current + line + seq!['\n']));
            assert(chunk_texts(st2.chunks) + st2.current =~= joined_lines(lines, n));
            assert forall|i: int| 0 <= i < st2.chunks.len() implies (#[trigger] st2.chunks[i]).index == i by {
                if i < st.chunks.len() {
                    assert(st2.chunks[i] == st.chunks[i]);
                }
            }
        } else {
            assert(chunk_texts(st2.chunks) + st2.current =~= joined_lines(lines, n));
        }
    }
}

/// Chunking loses no text and numbers the chunks in order: the chunk texts,
/// one after another, are the lines of the text each followed by `\n`, but
/// for a blank rest after the last chunk; and chunk `i` has index `i`.
pub proof fn law_chunks_keep_text(content: Seq<char>, size: int, overlap: int)
    ensures
        ({
            let cs = chunks_spec(content, size, overlap);
            let lines = lines_of(content);
            &&& exists|rest: Seq<char>|
                trim(rest).len() == 0 && #[trigger] (chunk_texts(cs) + rest) == joined_lines(
                    lines,
                    lines.len() as int,
                )
            &&& forall|i: int| 0 <= i < cs.len() ==> (#[trigger] cs[i]).index == i
        }),
{
    let lines = lines_of(content);
    let n = lines.len() as int;
    lemma_scan_keeps_text(lines, n, size, overlap);
    let st = chunk_scan(lines, n, size, overlap);
    let cs = chunks_spec(content, size, overlap);
    if trim(st.current).len() > 0 {
        assert(cs.drop_last() =~= st.chunks);
        let empty = Seq::<char>::empty();
        assert(trim(empty).len() == 0);
        assert(chunk_texts(cs) + empty =~= joined_lines(lines, n));
        assert forall|i: int| 0 <= i < cs.len() implies (#[trigger] cs[i]).index == i by {
            if i < st.chunks.len() {
                assert(cs[i] == st.chunks[i]);
            }
        }
    } else {
        assert(chunk_texts(cs) + st.current == joined_lines(lines, n));
    }
}

} // verus!
