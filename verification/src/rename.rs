//! Building the renamed file path: the root directory, a backslash, the
//! normalized date, an underscore, and the original path with the root prefix
//! stripped and every `"Fwd "` and `"FW "` substring removed.

use vstd::prelude::*;

use crate::text::append_chars;
use crate::text::chars_to_string;
use crate::text::copy_range;
use crate::text::matches_at;
use crate::text::remove_all;
use crate::text::remove_all_exec;
use crate::text::str_to_chars;
use crate::text::strip_prefix;

verus! {

/// The renamed path for a file under `root` whose earliest date is `date`.
pub open spec fn new_name(root: Seq<char>, file: Seq<char>, date: Seq<char>) -> Seq<char> {
    let rel = strip_prefix(file, root + "\\"@);
    root + "\\"@ + date + "_"@ + remove_all(remove_all(rel, "Fwd "@), "FW "@)
}

/// The renamed path as a string: root, backslash, date, underscore, then the
/// file's path relative to the root with all forward markers removed.
pub fn make_new_name(root: &str, file_name: &str, date: &str) -> (r: String)
    ensures
        r@ == new_name(root@, file_name@, date@),
{
    let rootc = str_to_chars(root);
    let filec = str_to_chars(file_name);
    let datec = str_to_chars(date);
    let backslash = str_to_chars("\\");
    let underscore = str_to_chars("_");

    let mut prefix = copy_range(&rootc, 0, rootc.len());
    assert(prefix@ =~= rootc@);
    append_chars(&mut prefix, &backslash);

    let rel = if matches_at(&filec, &prefix, 0) {
        proof {
            assert(filec@.subrange(0, prefix@.len() as int) =~= filec@.take(prefix@.len() as int));
            assert(filec@.subrange(prefix@.len() as int, filec@.len() as int) =~= filec@.skip(
                prefix@.len() as int,
            ));
        }
        copy_range(&filec, prefix.len(), filec.len())
    } else {
        proof {
            if prefix@.len() <= filec@.len() {
                assert(filec@.subrange(0, prefix@.len() as int) =~= filec@.take(
                    prefix@.len() as int,
                ));
            }
            assert(filec@.subrange(0, filec@.len() as int) =~= filec@);
        }
        copy_range(&filec, 0, filec.len())
    };
    assert(rel@ == strip_prefix(file_name@, root@ + "\\"@));

    let fwd = str_to_chars("Fwd ");
    let fw = str_to_chars("FW ");
    let no_fwd = remove_all_exec(&rel, &fwd);
    let cleaned = remove_all_exec(&no_fwd, &fw);

    let mut out = copy_range(&rootc, 0, rootc.len());
    assert(out@ =~= rootc@);
    append_chars(&mut out, &backslash);
    append_chars(&mut out, &datec);
    append_chars(&mut out, &underscore);
    append_chars(&mut out, &cleaned);
    assert(out@ =~= new_name(root@, file_name@, date@));
    chars_to_string(&out)
}

} // verus!
