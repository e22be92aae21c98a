//! Checks and names that the command-line front end needs before it hands
//! an image to a plugin.
use vstd::prelude::*;
use vstd::string::StringExecFns;
use crate::layout::rgba_len_spec;
use crate::params::{chars_of, string_of};

verus! {

/// A decoded image whose pixel buffer does not have the length its
/// dimensions call for.
#[derive(Clone, Copy, Debug)]
pub struct InvalidRgbaLen {
    /// `width * height * 4`.
    pub expected: usize,
    /// The length found.
    pub actual: usize,
}

/// Checks that a `width` by `height` RGBA buffer has `actual_len` bytes.
pub fn ensure_rgba_buffer_len(width: u32, height: u32, actual_len: usize) -> (r: Result<
    (),
    InvalidRgbaLen,
>)
    requires
        rgba_len_spec(width as int, height as int) <= usize::MAX,
    ensures
        match r {
            Ok(_) => actual_len == rgba_len_spec(width as int, height as int),
            Err(e) => actual_len != rgba_len_spec(width as int, height as int) && e.expected
                == rgba_len_spec(width as int, height as int) && e.actual == actual_len,
        },
{
    let w = width as usize;
    let h = height as usize;
    proof {
        assert(w * h <= w * h * 4) by (nonlinear_arith)
            requires
                0 <= w * h,
        ;
        assert(0 <= w * h) by (nonlinear_arith)
            requires
                0 <= w,
                0 <= h,
        ;
    }
    let expected_len = w * h * 4;
    if actual_len != expected_len {
        return Err(InvalidRgbaLen { expected: expected_len, actual: actual_len });
    }
    Ok(())
}

/// The operating systems whose shared-library names differ.
#[derive(Clone, Copy, Debug, PartialEq, Eq)]
pub enum TargetOs {
    Windows,
    MacOs,
    /// Linux and the other Unix systems.
    OtherUnix,
}

/// The file name of the shared library that holds plugin `name`:
/// `name.dll` on Windows, `libname.dylib` on macOS, `libname.so` elsewhere.
pub open spec fn library_file_name_spec(name: Seq<char>, os: TargetOs) -> Seq<char> {
    match os {
        TargetOs::Windows => name + seq!['.', 'd', 'l', 'l'],
        TargetOs::MacOs => seq!['l', 'i', 'b'] + name + seq!['.', 'd', 'y', 'l', 'i', 'b'],
        TargetOs::OtherUnix => seq!['l', 'i', 'b'] + name + seq!['.', 's', 'o'],
    }
}

/// A path separator on Windows: either slash.
pub open spec fn is_windows_separator(c: char) -> bool {
    c == '/' || c == '\\'
}

/// The first position at or after `i` that holds a separator (only `\` for
/// a verbatim path, either slash otherwise), or the length of `s`.
pub open spec fn next_separator(s: Seq<char>, i: int, verbatim: bool) -> int
    decreases s.len() - i,
{
    if i < 0 || i >= s.len() {
        s.len() as int
    } else if (if verbatim {
        s[i] == '\\'
    } else {
        is_windows_separator(s[i])
    }) {
        i
    } else {
        next_separator(s, i + 1, verbatim)
    }
}

/// An ASCII letter, as a drive letter must be.
pub open spec fn is_drive_letter(c: char) -> bool {
    ('a' <= c && c <= 'z') || ('A' <= c && c <= 'Z')
}

/// The length of the Windows path prefix that `s` starts with, or 0 where
/// it has none: `\\?\UNC\server\share`, `\\?\C:`, `\\?\name` (verbatim,
/// backslashes only), `\\.\device`, `\\server\share` (both non-empty), or a
/// drive `C:`.
pub open spec fn windows_prefix_len(s: Seq<char>) -> int {
    if s.len() >= 2 && is_windows_separator(s[0]) && is_windows_separator(s[1]) {
        if s.len() >= 4 && s[0] == '\\' && s[1] == '\\' && s[2] == '?' && s[3] == '\\' {
            if s.len() >= 8 && s[4] == 'U' && s[5] == 'N' && s[6] == 'C' && is_windows_separator(
                s[7],
            ) {
                let a = next_separator(s, 8, true);
                let b = next_separator(s, a + 1, true);
                if a < s.len() && b > a + 1 {
                    b
                } else {
                    a
                }
            } else if s.len() >= 6 && is_drive_letter(s[4]) && s[5] == ':' && (s.len() == 6
                || is_windows_separator(s[6])) {
                6
            } else {
                next_separator(s, 4, true)
            }
        } else if s.len() >= 4 && s[2] == '.' && is_windows_separator(s[3]) {
            next_separator(s, 4, false)
        } else {
            let a = next_separator(s, 2, false);
            let b = next_separator(s, a + 1, false);
            if a > 2 && a < s.len() && b > a + 1 {
                b
            } else {
                0
            }
        }
    } else if s.len() >= 2 && is_drive_letter(s[0]) && s[1] == ':' {
        2
    } else {
        0
    }
}

/// A separator inside a path: only `\` after a verbatim prefix, either
/// slash otherwise.
pub open spec fn is_part_separator(c: char, verbatim: bool) -> bool {
    if verbatim {
        c == '\\'
    } else {
        is_windows_separator(c)
    }
}

/// The pieces of `s` between separators, in order; `k` separators make
/// `k + 1` pieces, some of which may be empty.
pub open spec fn split_path(s: Seq<char>, verbatim: bool) -> Seq<Seq<char>>
    decreases s.len(),
{
    if s.len() == 0 {
        seq![Seq::<char>::empty()]
    } else {
        let prev = split_path(s.drop_last(), verbatim);
        if is_part_separator(s.last(), verbatim) {
            prev.push(Seq::<char>::empty())
        } else {
            prev.update(prev.len() - 1, prev.last().push(s.last()))
        }
    }
}

/// A path component that is a name, not `.` or `..`.
pub open spec fn is_normal_part(p: Seq<char>) -> bool {
    p != seq!['.'] && p != seq!['.', '.']
}

/// The components after one more piece: an empty piece adds nothing; where
/// `resolve` holds, `.` adds nothing and `..` takes back a preceding name;
/// any other piece is added.
pub open spec fn add_part(body: Seq<Seq<char>>, piece: Seq<char>, resolve: bool) -> Seq<
    Seq<char>,
> {
    if piece.len() == 0 || (resolve && piece == seq!['.']) {
        body
    } else if resolve && piece == seq!['.', '.'] {
        if body.len() > 0 && is_normal_part(body.last()) {
            body.drop_last()
        } else {
            body
        }
    } else {
        body.push(piece)
    }
}

/// The components after the pieces, one by one.
pub open spec fn add_parts(body: Seq<Seq<char>>, pieces: Seq<Seq<char>>, resolve: bool) -> Seq<
    Seq<char>,
>
    decreases pieces.len(),
{
    if pieces.len() == 0 {
        body
    } else {
        add_part(add_parts(body, pieces.drop_last(), resolve), pieces.last(), resolve)
    }
}

/// Each component with a `\` before it.
pub open spec fn render_parts(body: Seq<Seq<char>>) -> Seq<char>
    decreases body.len(),
{
    if body.len() == 0 {
        Seq::empty()
    } else {
        render_parts(body.drop_last()).push('\\') + body.last()
    }
}

/// `s` starts with the verbatim prefix marker `\\?\`.
pub open spec fn is_verbatim_path(s: Seq<char>) -> bool {
    s.len() >= 4 && s[0] == '\\' && s[1] == '\\' && s[2] == '?' && s[3] == '\\'
}

/// A directory with a verbatim prefix joined with a `file` without a
/// prefix, the way Windows does it: the components of both are laid out
/// again, `.` and `..` of `file` resolved, and a `file` that starts with a
/// separator keeps only the prefix of `dir`. The result is the prefix, a
/// `\` for a root with nothing after it, and each component after a `\`.
pub open spec fn verbatim_join(dir: Seq<char>, file: Seq<char>) -> Seq<char> {
    let p = windows_prefix_len(dir);
    let dir_root = p < dir.len() && is_windows_separator(dir[p]);
    let dir_body = add_parts(
        Seq::empty(),
        split_path(dir.skip(if dir_root {
            p + 1
        } else {
            p
        }), true),
        false,
    );
    let file_root = file.len() > 0 && is_windows_separator(file[0]);
    let body = add_parts(
        if file_root {
            Seq::empty()
        } else {
            dir_body
        },
        split_path(file, false),
        true,
    );
    dir.take(p) + (if (dir_root || file_root) && body.len() == 0 {
        seq!['\\']
    } else {
        Seq::empty()
    }) + render_parts(body)
}

/// `dir` joined with `file` by Windows rules: a `file` with a prefix
/// replaces `dir`; after a verbatim `dir` the two are laid out again as in
/// `verbatim_join`; a `file` that starts with a separator keeps only the
/// prefix of `dir`; otherwise a `\` goes between them unless `dir` is empty,
/// already ends with a separator, or is a bare drive such as `C:`.
pub open spec fn windows_join(dir: Seq<char>, file: Seq<char>) -> Seq<char> {
    if windows_prefix_len(file) > 0 {
        file
    } else if is_verbatim_path(dir) && file.len() > 0 {
        verbatim_join(dir, file)
    } else if file.len() > 0 && is_windows_separator(file[0]) {
        dir.take(windows_prefix_len(dir)) + file
    } else if dir.len() > 0 && !is_windows_separator(dir.last()) && !(dir.len() == 2
        && is_drive_letter(dir[0]) && dir[1] == ':') {
        dir.push('\\') + file
    } else {
        dir + file
    }
}

/// `dir` joined with `file` by Unix rules: a `file` that starts with `/`
/// replaces `dir`; otherwise a `/` goes between them unless `dir` is empty
/// or already ends with one.
pub open spec fn unix_join(dir: Seq<char>, file: Seq<char>) -> Seq<char> {
    if file.len() > 0 && file[0] == '/' {
        file
    } else if dir.len() > 0 && dir.last() != '/' {
        dir.push('/') + file
    } else {
        dir + file
    }
}

/// `dir` joined with `file` as a path of `os`.
pub open spec fn path_join(dir: Seq<char>, file: Seq<char>, os: TargetOs) -> Seq<char> {
    match os {
        TargetOs::Windows => windows_join(dir, file),
        _ => unix_join(dir, file),
    }
}

/// The file name of the shared library that holds plugin `plugin_name`.
pub fn library_file_name(plugin_name: &str, os: TargetOs) -> (r: String)
    ensures
        r@ == library_file_name_spec(plugin_name@, os),
{
    match os {
        TargetOs::Windows => {
            proof {
                reveal_strlit(".dll");
            }
            let mut s = String::from_str(plugin_name);
            s.append(".dll");
            s
        },
        TargetOs::MacOs => {
            proof {
                reveal_strlit("lib");
                reveal_strlit(".dylib");
            }
            let mut s = String::from_str("lib");
            s.append(plugin_name);
            s.append(".dylib");
            s
        },
        TargetOs::OtherUnix => {
            proof {
                reveal_strlit("lib");
                reveal_strlit(".so");
            }
            let mut s = String::from_str("lib");
            s.append(plugin_name);
            s.append(".so");
            s
        },
    }
}

/// The first position at or after `i` in `s` that holds a separator, or
/// the length of `s`.
fn find_separator(s: &Vec<char>, i: usize, verbatim: bool) -> (r: usize)
    requires
        i <= s.len(),
    ensures
        r == next_separator(s@, i as int, verbatim),
        i <= r <= s.len(),
{
    let mut k = i;
    while k < s.len()
        invariant
            i <= k <= s.len(),
            next_separator(s@, k as int, verbatim) == next_separator(s@, i as int, verbatim),
        decreases s.len() - k,
    {
        let c = s[k];
        let hit = if verbatim {
            c == '\\'
        } else {
            c == '/' || c == '\\'
        };
        if hit {
            return k;
        }
        k = k + 1;
    }
    k
}

fn is_separator_char(c: char) -> (r: bool)
    ensures
        r == is_windows_separator(c),
{
    c == '/' || c == '\\'
}

fn is_letter(c: char) -> (r: bool)
    ensures
        r == is_drive_letter(c),
{
    ('a' <= c && c <= 'z') || ('A' <= c && c <= 'Z')
}

/// The length of the Windows path prefix of `s`.
fn prefix_length(s: &Vec<char>) -> (r: usize)
    ensures
        r == windows_prefix_len(s@),
        r <= s.len(),
{
    let n = s.len();
    if n >= 2 && is_separator_char(s[0]) && is_separator_char(s[1]) {
        if n >= 4 && s[0] == '\\' && s[1] == '\\' && s[2] == '?' && s[3] == '\\' {
            if n >= 8 && s[4] == 'U' && s[5] == 'N' && s[6] == 'C' && is_separator_char(s[7]) {
                let a = find_separator(s, 8, true);
                if a < n {
                    let b = find_separator(s, a + 1, true);
                    if b > a + 1 {
                        b
                    } else {
                        a
                    }
                } else {
                    a
                }
            } else if n >= 6 && is_letter(s[4]) && s[5] == ':' && (n == 6 || is_separator_char(
                s[6],
            )) {
                6
            } else {
                find_separator(s, 4, true)
            }
        } else if n >= 4 && s[2] == '.' && is_separator_char(s[3]) {
            find_separator(s, 4, false)
        } else {
            let a = find_separator(s, 2, false);
            if a > 2 && a < n {
                let b = find_separator(s, a + 1, false);
                if b > a + 1 {
                    b
                } else {
                    0
                }
            } else {
                0
            }
        }
    } else if n >= 2 && is_letter(s[0]) && s[1] == ':' {
        2
    } else {
        0
    }
}

/// Appends the first `n` characters of `s` to `out`.
fn append_chars(out: &mut Vec<char>, s: &Vec<char>, n: usize)
    requires
        n <= s.len(),
    ensures
        final(out)@ == old(out)@ + s@.take(n as int),
{
    let mut k: usize = 0;
    while k < n
        invariant
            k <= n <= s.len(),
            out@ == old(out)@ + s@.take(k as int),
        decreases n - k,
    {
        out.push(s[k]);
        proof {
            assert(s@.take(k + 1) =~= s@.take(k as int).push(s@[k as int]));
        }
        k = k + 1;
    }
}

proof fn lemma_split_path_not_empty(s: Seq<char>, verbatim: bool)
    ensures
        split_path(s, verbatim).len() >= 1,
    decreases s.len(),
{
    if s.len() > 0 {
        lemma_split_path_not_empty(s.drop_last(), verbatim);
    }
}

fn is_single_dot(p: &Vec<char>) -> (r: bool)
    ensures
        r == (p@ == seq!['.']),
{
    let r = p.len() == 1 && p[0] == '.';
    proof {
        if r {
            assert(p@ =~= seq!['.']);
        } else if p@.len() == 1 {
            assert(p@[0] != seq!['.'][0]);
        }
    }
    r
}

fn is_double_dot(p: &Vec<char>) -> (r: bool)
    ensures
        r == (p@ == seq!['.', '.']),
{
    let r = p.len() == 2 && p[0] == '.' && p[1] == '.';
    proof {
        if r {
            assert(p@ =~= seq!['.', '.']);
        } else if p@.len() == 2 {
            assert(p@[0] != seq!['.', '.'][0] || p@[1] != seq!['.', '.'][1]);
        }
    }
    r
}

/// Adds one piece to the components, as `add_part` says.
fn add_part_to(body: &mut Vec<Vec<char>>, piece: Vec<char>, resolve: bool)
    ensures
        final(body).deep_view() == add_part(old(body).deep_view(), piece@, resolve),
{
    let ghost before = body.deep_view();
    if piece.len() == 0 || (resolve && is_single_dot(&piece)) {
        return ;
    }
    if resolve && is_double_dot(&piece) {
        let n = body.len();
        if n > 0 {
            proof {
                assert(before.last() =~= body[n - 1]@);
            }
            if !is_single_dot(&body[n - 1]) && !is_double_dot(&body[n - 1]) {
                body.pop();
                proof {
                    assert(body.deep_view() =~= before.drop_last());
                }
            }
        }
        return ;
    }
    let ghost added = piece@;
    proof {
        assert(piece.deep_view() =~= added);
    }
    body.push(piece);
    proof {
        assert(body@[body@.len() - 1].deep_view() =~= added);
        assert(body.deep_view() =~= before.push(added));
    }
}

/// Adds the pieces of `s` from position `from` on to the components.
fn add_path_parts(
    body: &mut Vec<Vec<char>>,
    s: &Vec<char>,
    from: usize,
    verbatim: bool,
    resolve: bool,
)
    requires
        from <= s.len(),
    ensures
        final(body).deep_view() == add_parts(
            old(body).deep_view(),
            split_path(s@.skip(from as int), verbatim),
            resolve,
        ),
{
    let ghost start = body.deep_view();
    let mut current: Vec<char> = Vec::new();
    let ghost mut done: Seq<Seq<char>> = Seq::empty();
    let mut k = from;
    proof {
        assert(s@.subrange(from as int, from as int) =~= Seq::<char>::empty());
        assert(split_path(Seq::<char>::empty(), verbatim) =~= done.push(current@));
    }
    while k < s.len()
        invariant
            from <= k <= s.len(),
            split_path(s@.subrange(from as int, k as int), verbatim) == done.push(current@),
            body.deep_view() == add_parts(start, done, resolve),
        decreases s.len() - k,
    {
        let c = s[k];
        proof {
            assert(s@.subrange(from as int, k + 1).drop_last() =~= s@.subrange(
                from as int,
                k as int,
            ));
            assert(s@.subrange(from as int, k + 1).last() == c);
        }
        let hit = if verbatim {
            c == '\\'
        } else {
            c == '/' || c == '\\'
        };
        if hit {
            let ghost new_done = done.push(current@);
            let piece = current;
            add_part_to(body, piece, resolve);
            proof {
                assert(new_done.drop_last() =~= done);
                done = new_done;
            }
            current = Vec::new();
            proof {
                assert(split_path(s@.subrange(from as int, k + 1), verbatim) =~= done.push(
                    current@,
                ));
            }
        } else {
            current.push(c);
            proof {
                assert(split_path(s@.subrange(from as int, k + 1), verbatim) =~= done.push(
                    current@,
                ));
            }
        }
        k = k + 1;
    }
    let ghost all = done.push(current@);
    add_part_to(body, current, resolve);
    proof {
        assert(all.drop_last() =~= done);
        assert(s@.subrange(from as int, s.len() as int) =~= s@.skip(from as int));
    }
}

/// Appends each component with a `\` before it.
fn render_into(out: &mut Vec<char>, body: &Vec<Vec<char>>)
    ensures
        final(out)@ == old(out)@ + render_parts(body.deep_view()),
{
    let mut i: usize = 0;
    while i < body.len()
        invariant
            i <= body.len(),
            out@ == old(out)@ + render_parts(body.deep_view().take(i as int)),
        decreases body.len() - i,
    {
        let ghost mid = out@;
        out.push('\\');
        append_chars(out, &body[i], body[i].len());
        proof {
            let t = body.deep_view().take(i + 1);
            assert(t.drop_last() =~= body.deep_view().take(i as int));
            assert(t.last() =~= body[i as int]@);
            assert(body[i as int]@.take(body[i as int]@.len() as int) =~= body[i as int]@);
            assert(out@ =~= old(out)@ + render_parts(t));
        }
        i = i + 1;
    }
    proof {
        assert(body.deep_view().take(body.len() as int) =~= body.deep_view());
    }
}

/// `dir`, which has a verbatim prefix, joined with `file`, which has none,
/// as `verbatim_join` says.
fn join_verbatim(dir: &Vec<char>, file: &Vec<char>) -> (r: Vec<char>)
    requires
        file.len() > 0,
    ensures
        r@ == verbatim_join(dir@, file@),
{
    let n = dir.len();
    let p = prefix_length(dir);
    let dir_root = p < n && is_separator_char(dir[p]);
    let start = if dir_root {
        p + 1
    } else {
        p
    };
    let mut body: Vec<Vec<char>> = Vec::new();
    proof {
        assert(body.deep_view() =~= Seq::<Seq<char>>::empty());
    }
    add_path_parts(&mut body, dir, start, true, false);
    let file_root = is_separator_char(file[0]);
    if file_root {
        body = Vec::new();
        proof {
            assert(body.deep_view() =~= Seq::<Seq<char>>::empty());
        }
    }
    add_path_parts(&mut body, file, 0, false, true);
    proof {
        assert(file@.skip(0) =~= file@);
    }
    let mut out: Vec<char> = Vec::new();
    append_chars(&mut out, dir, p);
    let ghost with_prefix = out@;
    if (dir_root || file_root) && body.len() == 0 {
        out.push('\\');
    }
    let ghost before = out@;
    render_into(&mut out, &body);
    proof {
        if (dir_root || file_root) && body.len() == 0 {
            assert(before =~= with_prefix + seq!['\\']);
        } else {
            assert(before =~= with_prefix + Seq::<char>::empty());
        }
    }
    out
}

/// `dir` and `file` joined by the rules of `os`.
fn join_chars(dir: &Vec<char>, file: &Vec<char>, os: TargetOs) -> (r: Vec<char>)
    ensures
        r@ == path_join(dir@, file@, os),
{
    let mut out: Vec<char> = Vec::new();
    let n = dir.len();
    match os {
        TargetOs::Windows => {
            let file_prefix = prefix_length(file);
            if file_prefix > 0 {
            } else if n >= 4 && dir[0] == '\\' && dir[1] == '\\' && dir[2] == '?' && dir[3]
                == '\\' && file.len() > 0 {
                return join_verbatim(dir, file);
            } else if file.len() > 0 && is_separator_char(file[0]) {
                let keep = prefix_length(dir);
                append_chars(&mut out, dir, keep);
            } else {
                append_chars(&mut out, dir, n);
                let bare_drive = n == 2 && is_letter(dir[0]) && dir[1] == ':';
                if n > 0 && !is_separator_char(dir[n - 1]) && !bare_drive {
                    out.push('\\');
                }
            }
        },
        _ => {
            if file.len() > 0 && file[0] == '/' {
            } else {
                append_chars(&mut out, dir, n);
                if n > 0 && dir[n - 1] != '/' {
                    out.push('/');
                }
            }
        },
    }
    let ghost before = out@;
    append_chars(&mut out, file, file.len());
    proof {
        assert(dir@.take(n as int) =~= dir@);
        assert(file@.take(file.len() as int) =~= file@);
        assert(out@ =~= before + file@);
    }
    out
}

/// Where the shared library of plugin `plugin_name` lies in directory
/// `plugin_path`, joined as `std::path::Path::join` joins on `os`.
pub fn resolve_library_path(plugin_path: &str, plugin_name: &str, os: TargetOs) -> (r: String)
    ensures
        r@ == path_join(plugin_path@, library_file_name_spec(plugin_name@, os), os),
{
    let file = library_file_name(plugin_name, os);
    let dir = chars_of(plugin_path);
    let file_chars = chars_of(file.as_str());
    let joined = join_chars(&dir, &file_chars, os);
    string_of(&joined)
}

} // verus!
