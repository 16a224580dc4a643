//! Moving the working directory: a path is modelled as the list of its
//! components, and whether a directory exists is asked of the caller.
use vstd::prelude::*;
use crate::text::{split_whitespace, string_from_chars, words_spec};

verus! {

/// The components of a path, each by its characters.
pub open spec fn path_view(p: Seq<String>) -> Seq<Seq<char>> {
    p.map_values(|s: String| s@)
}

/// The name of the directory under which new directories are entered
/// rather than switched to.
pub open spec fn assets_name() -> Seq<char> {
    seq!['a', 's', 's', 'e', 't', 's']
}

/// `is_dir` answered `r` when asked about a path with components `comps`.
pub open spec fn answered<F: Fn(&Vec<String>) -> bool>(is_dir: F, comps: Seq<Seq<char>>, r: bool) -> bool {
    exists|p: &Vec<String>| #![trigger call_ensures(is_dir, (p,), r)]
        path_view(p@) == comps && call_ensures(is_dir, (p,), r)
}

/// Pushes `add` onto `path_buf` when the result names an existing directory,
/// as `is_dir` reports; returns whether it did.
fn add_to_path<F: Fn(&Vec<String>) -> bool>(path_buf: &mut Vec<String>, add: &str, is_dir: &F) -> (r: bool)
    requires
        forall|p: &Vec<String>| call_requires(*is_dir, (p,)),
    ensures
        r ==> path_view(final(path_buf)@) == path_view(old(path_buf)@).push(add@),
        !r ==> final(path_buf)@ == old(path_buf)@,
        answered(*is_dir, path_view(old(path_buf)@).push(add@), r),
{
    let mut test_path = path_buf.clone();
    let ghost before = path_buf@;
    test_path.push(add.to_owned());
    proof {
        assert forall|i: int| 0 <= i < before.len() implies test_path@[i]@ == before[i]@ by {
            assert(cloned::<String>(before[i], test_path@[i]));
        }
        assert(test_path@.map_values(|s: String| s@) =~= before.map_values(|s: String| s@).push(add@));
    }
    let ok = is_dir(&test_path);
    if ok {
        path_buf.push(add.to_owned());
        assert(path_buf@.map_values(|s: String| s@) =~= before.map_values(|s: String| s@).push(add@));
        return true;
    }
    false
}

/// Switches the last directory of `path_buf` to `new`: under the assets
/// directory `new` is entered; elsewhere the last directory is replaced by
/// `new` if that names a directory, else put back if it still names one.
/// Returns whether the path now ends in `new`; a `new` equal to the current
/// directory changes nothing.
pub fn change_directory<F: Fn(&Vec<String>) -> bool>(path_buf: &mut Vec<String>, new: &str, is_dir: &F) -> (r: bool)
    requires
        old(path_buf)@.len() >= 1,
        forall|p: &Vec<String>| call_requires(*is_dir, (p,)),
    ensures
        ({
            let base = path_view(old(path_buf)@);
            let cur = base.last();
            let parent = base.drop_last();
            if new@ == cur {
                !r && final(path_buf)@ == old(path_buf)@
            } else if cur == assets_name() {
                &&& answered(*is_dir, base.push(new@), r)
                &&& r ==> path_view(final(path_buf)@) == base.push(new@)
                &&& !r ==> final(path_buf)@ == old(path_buf)@
            } else {
                &&& answered(*is_dir, parent.push(new@), r)
                &&& r ==> path_view(final(path_buf)@) == parent.push(new@)
                &&& !r ==> exists|back: bool| #![trigger answered(*is_dir, parent.push(cur), back)]
                    answered(*is_dir, parent.push(cur), back)
                    && path_view(final(path_buf)@) == if back { parent.push(cur) } else { parent }
            }
        }),
{
    let ghost base = path_view(path_buf@);
    let n = path_buf.len();
    let current = path_buf[n - 1].clone();
    let new_s = new.to_owned();
    if new_s == current {
        return false;
    }
    let assets = string_from_chars(&['a', 's', 's', 'e', 't', 's']);
    assert(assets@ =~= assets_name());
    if current == assets {
        return add_to_path(path_buf, new, is_dir);
    }
    let ghost before = path_buf@;
    path_buf.pop();
    assert(path_view(path_buf@) =~= base.drop_last());
    let success = add_to_path(path_buf, new, is_dir);
    if !success {
        let ghost mid = path_buf@;
        let back = add_to_path(path_buf, current.as_str(), is_dir);
        assert(answered(*is_dir, base.drop_last().push(base.last()), back));
        assert(path_view(path_buf@) == if back { base.drop_last().push(base.last()) } else { base.drop_last() });
    }
    success
}

/// Handles an index command: the second white-space separated word of
/// `input` names the directory to switch to (see `change_directory`).
pub fn index_directory<F: Fn(&Vec<String>) -> bool>(path_buf: &mut Vec<String>, input: String, is_dir: &F) -> (r: bool)
    requires
        old(path_buf)@.len() >= 1,
        words_spec(input@).len() >= 2,
        forall|p: &Vec<String>| call_requires(*is_dir, (p,)),
    ensures
        ({
            let base = path_view(old(path_buf)@);
            let new = words_spec(input@)[1];
            let cur = base.last();
            let parent = base.drop_last();
            if new == cur {
                !r && final(path_buf)@ == old(path_buf)@
            } else if cur == assets_name() {
                &&& answered(*is_dir, base.push(new), r)
                &&& r ==> path_view(final(path_buf)@) == base.push(new)
                &&& !r ==> final(path_buf)@ == old(path_buf)@
            } else {
                &&& answered(*is_dir, parent.push(new), r)
                &&& r ==> path_view(final(path_buf)@) == parent.push(new)
                &&& !r ==> exists|back: bool| #![trigger answered(*is_dir, parent.push(cur), back)]
                    answered(*is_dir, parent.push(cur), back)
                    && path_view(final(path_buf)@) == if back { parent.push(cur) } else { parent }
            }
        }),
{
    let words = split_whitespace(input.as_str());
    assert(words@[1]@ == words_spec(input@)[1]);
    let directory = string_from_chars(words[1].as_slice());
    change_directory(path_buf, directory.as_str(), is_dir)
}

} // verus!
