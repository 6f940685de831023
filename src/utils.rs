use vstd::prelude::*;

verus! {

/// The drive letter of a path: the first character of the path's prefix
/// component (`C:` gives `C`), where it has one.
pub fn get_drive_letter(prefix: Option<&str>) -> (r: Option<char>)
    ensures
        r == match prefix {
            Some(p) => if p@.len() > 0 {
                Some(p@[0])
            } else {
                None
            },
            None => None,
        },
{
    broadcast use vstd::string::group_string_axioms;

    match prefix {
        Some(p) => {
            let mut chars = p.chars();
            chars.next()
        },
        None => None,
    }
}

} // verus!
