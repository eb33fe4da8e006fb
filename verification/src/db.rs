//! Where the city database is found.

use vstd::prelude::*;

use crate::text::{chars_of, push_chars};

verus! {

/// The database used when none is named.
pub const DATABASE_PATH: &'static str = "tsp.db";

/// Scheme prefix that a database location may carry.
pub const SQLITE_SCHEME: &'static str = "sqlite://";

/// The file to open for the database location `db_path` (by default
/// `DATABASE_PATH`), without a leading `sqlite://`.
pub open spec fn database_file_spec(db_path: Option<Seq<char>>) -> Seq<char> {
    let path = match db_path {
        Some(p) => p,
        None => DATABASE_PATH@,
    };
    if path.len() >= SQLITE_SCHEME@.len() && path.take(SQLITE_SCHEME@.len() as int)
        == SQLITE_SCHEME@ {
        path.skip(SQLITE_SCHEME@.len() as int)
    } else {
        path
    }
}

/// The file to open for the database location `db_path`.
pub fn database_file(db_path: Option<String>) -> (r: String)
    ensures
        r@ == database_file_spec(
            match db_path {
                Some(p) => Some(p@),
                None => None,
            },
        ),
{
    let path: Vec<char> = match &db_path {
        Some(p) => chars_of(p.as_str()),
        None => chars_of(DATABASE_PATH),
    };
    let scheme = chars_of(SQLITE_SCHEME);
    let mut has_scheme = path.len() >= scheme.len();
    let mut i: usize = 0;
    while has_scheme && i < scheme.len()
        invariant
            i <= scheme@.len() <= path@.len() || !has_scheme,
            has_scheme ==> forall|k: int| 0 <= k < i ==> path@[k] == scheme@[k],
            has_scheme ==> scheme@.len() <= path@.len(),
            !has_scheme ==> !(path@.len() >= scheme@.len() && path@.take(scheme@.len() as int)
                == scheme@),
        decreases (if has_scheme {
            scheme@.len() - i + 1
        } else {
            0
        }),
    {
        if path[i] != scheme[i] {
            proof {
                assert(path@.take(scheme@.len() as int)[i as int] == path@[i as int]);
            }
            has_scheme = false;
        } else {
            i = i + 1;
        }
    }
    let start: usize = if has_scheme {
        proof {
            assert(path@.take(scheme@.len() as int) =~= scheme@);
        }
        scheme.len()
    } else {
        0
    };
    let mut r = String::new();
    push_chars(&mut r, vstd::slice::slice_subrange(path.as_slice(), start, path.len()));
    proof {
        if !has_scheme {
            assert(path@.subrange(0, path@.len() as int) =~= path@);
        }
    }
    r
}

} // verus!
