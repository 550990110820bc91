//! Names of the admin interface's assets.
use vstd::prelude::*;
use vstd::string::StrSliceExecFns;

verus! {

/// The part of `path` after its last `/`.
pub open spec fn file_name_of(path: Seq<char>) -> Seq<char>
    decreases path.len(),
{
    if path.len() == 0 {
        path
    } else if path.last() == '/' {
        Seq::<char>::empty()
    } else {
        file_name_of(path.drop_last()).push(path.last())
    }
}

/// The extension of a file name: what follows its last `.`, where that dot
/// is not its first character.
pub open spec fn extension_of(name: Seq<char>) -> Option<Seq<char>>
    decreases name.len(),
{
    if name.len() <= 1 {
        None
    } else if name.last() == '.' {
        Some(Seq::<char>::empty())
    } else {
        match extension_of(name.drop_last()) {
            Some(e) => Some(e.push(name.last())),
            None => None,
        }
    }
}

/// The content type served for a file with extension `ext`.
pub open spec fn mime_of(ext: Option<Seq<char>>) -> Seq<char> {
    if ext == Some(seq!['h', 't', 'm', 'l']) {
        "text/html"@
    } else if ext == Some(seq!['j', 's']) {
        "application/javascript; charset=UTF-8"@
    } else if ext == Some(seq!['c', 's', 's']) {
        "text/css; charset=UTF-8"@
    } else if ext == Some(seq!['w', 'o', 'f', 'f', '2']) {
        "font/woff2"@
    } else {
        "application/octet-stream"@
    }
}

fn extension(path: &str) -> (r: Option<Vec<char>>)
    ensures
        match r {
            Some(e) => extension_of(file_name_of(path@)) == Some(e@),
            None => extension_of(file_name_of(path@)) is None,
        },
{
    let cs = crate::text::chars_of(path);
    let mut name: Vec<char> = Vec::new();
    let mut ext: Option<Vec<char>> = None;
    let mut i: usize = 0;
    while i < cs.len()
        invariant
            i <= cs@.len(),
            cs@ == path@,
            name@ == file_name_of(cs@.take(i as int)),
            match ext {
                Some(e) => extension_of(name@) == Some(e@),
                None => extension_of(name@) is None,
            },
        decreases cs@.len() - i,
    {
        assert(cs@.take(i + 1).drop_last() =~= cs@.take(i as int));
        let c = cs[i];
        if c == '/' {
            name = Vec::new();
            ext = None;
        } else {
            name.push(c);
            assert(name@.drop_last() =~= file_name_of(cs@.take(i as int)));
            if c == '.' && name.len() > 1 {
                ext = Some(Vec::new());
            } else {
                ext = match ext {
                    Some(mut e) => {
                        e.push(c);
                        Some(e)
                    },
                    None => None,
                };
            }
        }
        i = i + 1;
    }
    assert(cs@.take(i as int) =~= cs@);
    ext
}

/// The content type of the asset at `path`, by its extension.
pub fn get_mime_type(path: &str) -> (r: &'static str)
    ensures
        r@ == mime_of(extension_of(file_name_of(path@))),
{
    let ext = extension(path);
    let html = vec!['h', 't', 'm', 'l'];
    let js = vec!['j', 's'];
    let css = vec!['c', 's', 's'];
    let woff2 = vec!['w', 'o', 'f', 'f', '2'];
    proof {
        reveal_strlit("text/html");
        reveal_strlit("application/javascript; charset=UTF-8");
        reveal_strlit("text/css; charset=UTF-8");
        reveal_strlit("font/woff2");
        reveal_strlit("application/octet-stream");
        assert(html@ =~= seq!['h', 't', 'm', 'l']);
        assert(js@ =~= seq!['j', 's']);
        assert(css@ =~= seq!['c', 's', 's']);
        assert(woff2@ =~= seq!['w', 'o', 'f', 'f', '2']);
    }
    match ext {
        Some(e) => {
            if crate::text::chars_eq(&e, &html) {
                "text/html"
            } else if crate::text::chars_eq(&e, &js) {
                "application/javascript; charset=UTF-8"
            } else if crate::text::chars_eq(&e, &css) {
                "text/css; charset=UTF-8"
            } else if crate::text::chars_eq(&e, &woff2) {
                "font/woff2"
            } else {
                "application/octet-stream"
            }
        },
        None => "application/octet-stream",
    }
}

/// `string` without its first character.
pub fn remove_first_slash(string: &str) -> (r: &str)
    ensures
        r@ == if string@.len() == 0 { string@ } else { string@.drop_first() },
{
    let n = string.unicode_len();
    if n == 0 {
        string
    } else {
        string.substring_char(1, n)
    }
}

} // verus!
