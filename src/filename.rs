//! Default names: the output path and the on-calculator variable name that
//! follow from the path of the program image.
use vstd::prelude::*;
use crate::header::Calc;

verus! {

/// `p` without the suffix `suffix`, or `p` itself when it does not end so.
pub open spec fn without_suffix(p: Seq<char>, suffix: Seq<char>) -> Seq<char> {
    if p.len() >= suffix.len() && p.subrange(p.len() - suffix.len(), p.len() as int) == suffix {
        p.subrange(0, p.len() - suffix.len())
    } else {
        p
    }
}

/// What follows the last `/` of `p`, or `p` itself when it holds none.
pub open spec fn after_last_slash(p: Seq<char>) -> Seq<char>
    decreases p.len(),
{
    if p.len() == 0 {
        p
    } else if p.last() == '/' {
        Seq::empty()
    } else {
        after_last_slash(p.drop_last()).push(p.last())
    }
}

/// The image path with a `.ch8` suffix, then a `.rom` suffix, taken off.
pub open spec fn stem_of(file: Seq<char>) -> Seq<char> {
    without_suffix(without_suffix(file, ".ch8"@), ".rom"@)
}

/// The extension of the output file for each calculator.
pub open spec fn extension_of(calc: Calc) -> Seq<char> {
    match calc {
        Calc::TI89 => ".89y"@,
        Calc::TI92P => ".9xy"@,
        Calc::V200 => ".v2y"@,
    }
}

/// Relies on `str::strip_suffix`: `Some` of the part before `suffix` when
/// `s` ends with it, else `None`.
#[verifier::external_body]
fn strip_suffix<'a>(s: &'a str, suffix: &str) -> (r: Option<&'a str>)
    ensures
        r is Some <==> (s@.len() >= suffix@.len() && s@.subrange(
            s@.len() - suffix@.len(),
            s@.len() as int,
        ) == suffix@),
        r matches Some(p) ==> p@ + suffix@ == s@,
{
    s.strip_suffix(suffix)
}

/// Relies on `str::rsplit_once`: splits `s` at the last occurrence of
/// `delim`, or gives `None` when `delim` does not occur.
#[verifier::external_body]
fn rsplit_once<'a>(s: &'a str, delim: char) -> (r: Option<(&'a str, &'a str)>)
    ensures
        r is Some <==> s@.contains(delim),
        r matches Some(parts) ==> s@ == parts.0@ + seq![delim] + parts.1@ && !parts.1@.contains(
            delim,
        ),
{
    s.rsplit_once(delim)
}

proof fn lemma_after_last_slash_none(p: Seq<char>)
    requires
        !p.contains('/'),
    ensures
        after_last_slash(p) == p,
    decreases p.len(),
{
    if p.len() > 0 {
        assert(p[p.len() - 1] == p.last());
        assert forall|k: int| 0 <= k < p.drop_last().len() implies p.drop_last()[k] != '/' by {
            assert(p[k] == p.drop_last()[k]);
        }
        lemma_after_last_slash_none(p.drop_last());
        assert(p.drop_last().push(p.last()) =~= p);
    }
}

proof fn lemma_after_last_slash_split(a: Seq<char>, b: Seq<char>)
    requires
        !b.contains('/'),
    ensures
        after_last_slash(a + seq!['/'] + b) == b,
    decreases b.len(),
{
    let p = a + seq!['/'] + b;
    if b.len() == 0 {
        assert(p.last() == '/');
    } else {
        assert(b[b.len() - 1] == b.last());
        assert(p.drop_last() =~= a + seq!['/'] + b.drop_last());
        assert forall|k: int| 0 <= k < b.drop_last().len() implies b.drop_last()[k] != '/' by {
            assert(b[k] == b.drop_last()[k]);
        }
        lemma_after_last_slash_split(a, b.drop_last());
        assert(b.drop_last().push(b.last()) =~= b);
    }
}

/// Returns the output path and the variable name. The output path is
/// `output`, or else the image path without its `.ch8` and `.rom` suffixes,
/// followed by the calculator's extension. The variable name is `var_name`,
/// or else that stripped path after its last `/`.
pub fn get_filename(file: &str, output: Option<&str>, var_name: Option<&str>, calc: Calc) -> (r: (
    String,
    String,
))
    ensures
        r.0@ == (match output {
            Some(o) => o@,
            None => stem_of(file@),
        }) + extension_of(calc),
        r.1@ == match var_name {
            Some(v) => v@,
            None => after_last_slash(stem_of(file@)),
        },
{
    let mut path: &str = file;
    path = match strip_suffix(path, ".ch8") {
        Some(p) => {
            assert(p@ =~= (p@ + ".ch8"@).subrange(0, p@.len() as int));
            p
        },
        None => path,
    };
    assert(path@ == without_suffix(file@, ".ch8"@));
    let ghost once = path@;
    path = match strip_suffix(path, ".rom") {
        Some(p) => {
            assert(p@ =~= (p@ + ".rom"@).subrange(0, p@.len() as int));
            p
        },
        None => path,
    };
    assert(path@ == without_suffix(once, ".rom"@));
    assert(path@ == stem_of(file@));
    let base: &str = match rsplit_once(path, '/') {
        Some(parts) => {
            proof {
                lemma_after_last_slash_split(parts.0@, parts.1@);
            }
            parts.1
        },
        None => {
            proof {
                lemma_after_last_slash_none(path@);
            }
            path
        },
    };
    let out_base: &str = match output {
        Some(o) => o,
        None => path,
    };
    let extension: &str = match calc {
        Calc::TI89 => ".89y",
        Calc::TI92P => ".9xy",
        Calc::V200 => ".v2y",
    };
    let out_path = out_base.to_owned().concat(extension);
    let name = match var_name {
        Some(v) => v.to_owned(),
        None => base.to_owned(),
    };
    (out_path, name)
}

} // verus!
