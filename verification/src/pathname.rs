//! File names and extensions of `/`-separated paths.

use vstd::prelude::*;

verus! {

/// The part of `path` behind its last `/`: all of it where it holds none.
pub open spec fn last_component(path: Seq<char>) -> Seq<char>
    decreases path.len(),
{
    if path.len() == 0 || path.last() == '/' {
        Seq::empty()
    } else {
        last_component(path.drop_last()).push(path.last())
    }
}

/// The file name of `path`: its last component, where trailing separators
/// and components `.` are passed over. A path that ends in `..`, and one
/// with no component left, has none.
pub open spec fn file_name(path: Seq<char>) -> Option<Seq<char>>
    decreases path.len(),
{
    if path.len() == 0 {
        None
    } else if path.last() == '/' {
        file_name(path.drop_last())
    } else {
        let name = last_component(path);
        if name == seq!['.'] {
            file_name(path.drop_last())
        } else if name == seq!['.', '.'] {
            None
        } else {
            Some(name)
        }
    }
}

/// The place of the last `.` in `name`, or -1 where it holds none.
pub open spec fn last_dot(name: Seq<char>) -> int
    decreases name.len(),
{
    if name.len() == 0 {
        -1
    } else if name.last() == '.' {
        name.len() - 1
    } else {
        last_dot(name.drop_last())
    }
}

/// The extension of a file name: what follows its last `.`, unless the name
/// holds no `.` or only the one it begins with.
pub open spec fn name_extension(name: Seq<char>) -> Option<Seq<char>> {
    let dot = last_dot(name);
    if dot <= 0 {
        None
    } else {
        Some(name.skip(dot + 1))
    }
}

/// The extension of the file name of `path`.
pub open spec fn extension(path: Seq<char>) -> Option<Seq<char>> {
    match file_name(path) {
        Some(name) => name_extension(name),
        None => None,
    }
}

/// Behind the last `/` of a path stands its last component.
proof fn lemma_last_component(path: Seq<char>, from: int)
    requires
        0 <= from <= path.len(),
        from == 0 || path[from - 1] == '/',
        forall|k: int| from <= k < path.len() ==> path[k] != '/',
    ensures
        last_component(path) == path.skip(from),
    decreases path.len(),
{
    if path.len() == from {
        assert(path.skip(from) =~= Seq::<char>::empty());
    } else {
        lemma_last_component(path.drop_last(), from);
        assert(path.drop_last().skip(from).push(path.last()) =~= path.skip(from));
    }
}

/// Where no `.` stands at or behind `from`, the last `.` of a name is that
/// of its first `from` characters.
proof fn lemma_last_dot(name: Seq<char>, from: int)
    requires
        0 <= from <= name.len(),
        forall|k: int| from <= k < name.len() ==> name[k] != '.',
    ensures
        last_dot(name) == last_dot(name.take(from)),
    decreases name.len(),
{
    if name.len() == from {
        assert(name.take(from) =~= name);
    } else {
        lemma_last_dot(name.drop_last(), from);
        assert(name.drop_last().take(from) =~= name.take(from));
    }
}

/// The characters of `text`, one by one.
fn chars_of(text: &str) -> (chars: Vec<char>)
    ensures
        chars@ == text@,
{
    let mut chars: Vec<char> = Vec::new();
    for c in it: text.chars()
        invariant
            it.seq() == text@,
            chars@ == text@.take(it.index()),
    {
        chars.push(c);
        proof {
            assert(text@.take(it.index() + 1) =~= text@.take(it.index()).push(c));
        }
    }
    proof {
        assert(text@.take(text@.len() as int) =~= text@);
    }
    chars
}

/// Where the file name of a path begins and ends among its characters.
fn file_name_bounds(chars: &Vec<char>) -> (bounds: Option<(usize, usize)>)
    ensures
        match bounds {
            Some((from, to)) => {
                &&& from < to <= chars.len()
                &&& file_name(chars@) == Some(chars@.subrange(from as int, to as int))
            },
            None => file_name(chars@) is None,
        },
{
    let mut end: usize = chars.len();
    proof {
        assert(chars@.take(end as int) =~= chars@);
    }
    loop
        invariant
            end <= chars.len(),
            file_name(chars@) == file_name(chars@.take(end as int)),
        decreases end,
    {
        if end == 0 {
            return None;
        }
        let ghost path = chars@.take(end as int);
        proof {
            assert(path.drop_last() =~= chars@.take(end - 1));
        }
        if chars[end - 1] == '/' {
            end -= 1;
            continue;
        }
        let mut start: usize = end - 1;
        while start > 0 && chars[start - 1] != '/'
            invariant
                start < end <= chars.len(),
                forall|k: int| start <= k < end ==> chars@[k] != '/',
            decreases start,
        {
            start -= 1;
        }
        proof {
            lemma_last_component(path, start as int);
            assert(path.skip(start as int) =~= chars@.subrange(start as int, end as int));
        }
        let ghost name = chars@.subrange(start as int, end as int);
        if end - start == 1 && chars[start] == '.' {
            proof {
                assert(name =~= seq!['.']);
            }
            end -= 1;
        } else if end - start == 2 && chars[start] == '.' && chars[start + 1] == '.' {
            proof {
                assert(name =~= seq!['.', '.']);
                assert(seq!['.', '.'].len() == 2);
                assert(seq!['.'].len() == 1);
            }
            return None;
        } else {
            proof {
                assert(name[0] == chars@[start as int]);
                if name == seq!['.'] {
                    assert(name.len() == 1);
                    assert(seq!['.'][0] == '.');
                }
                if name == seq!['.', '.'] {
                    assert(name.len() == 2);
                    assert(name[1] == chars@[start + 1]);
                    assert(seq!['.', '.'][0] == '.');
                    assert(seq!['.', '.'][1] == '.');
                }
            }
            return Some((start, end));
        }
    }
}

/// The extension of the file name of `path`, if it has one: what follows the
/// last `.` of the name, which may be nothing. A name without a `.`, or with
/// none but the one it begins with, has no extension.
pub fn extension_of(path: &str) -> (found: Option<String>)
    ensures
        match found {
            Some(ext) => extension(path@) == Some(ext@),
            None => extension(path@) is None,
        },
{
    let chars = chars_of(path);
    match file_name_bounds(&chars) {
        None => None,
        Some((from, to)) => {
            let ghost name = chars@.subrange(from as int, to as int);
            let mut after: usize = to;
            while after > from && chars[after - 1] != '.'
                invariant
                    from <= after <= to <= chars.len(),
                    forall|k: int| after <= k < to ==> chars@[k] != '.',
                decreases after,
            {
                after -= 1;
            }
            proof {
                lemma_last_dot(name, after - from);
                let head = name.take(after - from);
                if after > from {
                    assert(head.last() == chars@[after - 1]);
                }
            }
            if after <= from + 1 {
                None
            } else {
                let ext = path.substring_char(after, to);
                proof {
                    assert(name.skip(after - from) =~= path@.subrange(after as int, to as int));
                }
                Some(ext.to_owned())
            }
        },
    }
}

/// The characters that `str::to_lowercase` returns for a string of the
/// characters `text`.
pub uninterp spec fn lowercase(text: Seq<char>) -> Seq<char>;

/// `str::to_lowercase`: the lowercase equivalent of a string, as Unicode
/// defines it. What it returns depends on the characters of the string
/// alone; nothing more is claimed of it.
pub assume_specification[ str::to_lowercase ](text: &str) -> (lower: String)
    ensures
        lower@ == lowercase(text@),
;

/// The key under which a file at `path` is grouped: its extension in
/// lowercase, or `no_extension` where it has none.
pub open spec fn extension_key(path: Seq<char>) -> Seq<char> {
    match extension(path) {
        Some(ext) => lowercase(ext),
        None => "no_extension"@,
    }
}

/// The key under which a file at `path` is grouped.
pub fn extension_key_of(path: &str) -> (key: String)
    ensures
        key@ == extension_key(path@),
{
    match extension_of(path) {
        Some(ext) => ext.as_str().to_lowercase(),
        None => "no_extension".to_owned(),
    }
}

} // verus!
