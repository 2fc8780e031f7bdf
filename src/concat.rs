use vstd::prelude::*;
use vstd::string::*;

verus! {

/// A character as it stands between single quotes in a concat list: a
/// quote closes the string, adds an escaped quote, and opens it again.
pub open spec fn escape_char(c: char) -> Seq<char> {
    if c == '\'' {
        seq!['\'', '\\', '\'', '\'']
    } else {
        seq![c]
    }
}

/// A path as it stands between single quotes in a concat list.
pub open spec fn escaped(s: Seq<char>) -> Seq<char>
    decreases s.len(),
{
    if s.len() == 0 {
        Seq::empty()
    } else {
        escaped(s.drop_last()) + escape_char(s.last())
    }
}

/// One line of a concat list: `file '<path>'` and a newline.
pub open spec fn concat_line(path: Seq<char>) -> Seq<char> {
    seq!['f', 'i', 'l', 'e', ' ', '\''] + escaped(path) + seq!['\'', '\n']
}

/// The concat list for the given paths, one line each, in order.
pub open spec fn concat_text(paths: Seq<Seq<char>>) -> Seq<char>
    decreases paths.len(),
{
    if paths.len() == 0 {
        Seq::empty()
    } else {
        concat_text(paths.drop_last()) + concat_line(paths.last())
    }
}

/// Quotes `p` for a single-quoted entry of a concat list.
pub fn escape_concat_path(p: &str) -> (r: String)
    ensures
        r@ == escaped(p@),
{
    let n = p.unicode_len();
    let mut r = String::new();
    let mut i: usize = 0;
    while i < n
        invariant
            n == p@.len(),
            i <= n,
            r@ == escaped(p@.subrange(0, i as int)),
        decreases n - i,
    {
        let c = p.get_char(i);
        if c == '\'' {
            let q = "'\\''";
            proof {
                reveal_strlit("'\\''");
            }
            r.append(q);
        } else {
            r.append(p.substring_char(i, i + 1));
        }
        proof {
            let s = p@.subrange(0, i + 1);
            assert(s.drop_last() =~= p@.subrange(0, i as int));
            assert(s.last() == c);
            assert(p@.subrange(i as int, i + 1) =~= seq![c]);
        }
        i = i + 1;
    }
    proof {
        assert(p@.subrange(0, n as int) =~= p@);
    }
    r
}

/// The text of a concat list for `paths`, or an error when there are none.
pub fn concat_list(paths: &Vec<String>) -> (r: Result<String, String>)
    ensures
        match r {
            Ok(text) => paths@.len() > 0 && text@ == concat_text(paths@.map_values(|p: String| p@)),
            Err(e) => paths@.len() == 0 && e@ == "No segment files."@,
        },
{
    if paths.len() == 0 {
        return Err(String::from_str("No segment files."));
    }
    let ghost views = paths@.map_values(|p: String| p@);
    let mut text = String::new();
    let mut i: usize = 0;
    while i < paths.len()
        invariant
            i <= paths@.len(),
            views == paths@.map_values(|p: String| p@),
            text@ == concat_text(views.subrange(0, i as int)),
        decreases paths@.len() - i,
    {
        let head = "file '";
        let tail = "'\n";
        proof {
            reveal_strlit("file '");
            reveal_strlit("'\n");
        }
        text.append(head);
        let quoted = escape_concat_path(paths[i].as_str());
        text.append(quoted.as_str());
        text.append(tail);
        proof {
            let s = views.subrange(0, i + 1);
            assert(s.drop_last() =~= views.subrange(0, i as int));
            assert(s.last() == paths@[i as int]@);
            assert(text@ =~= concat_text(s));
        }
        i = i + 1;
    }
    proof {
        assert(views.subrange(0, paths@.len() as int) =~= views);
    }
    Ok(text)
}

} // verus!
