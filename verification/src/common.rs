//! Helpers shared by the cache, the store and the resolver.

use vstd::prelude::*;

use crate::metadata::{BinView, NpmBinMetadata};
use crate::strutil::{copy_str, push_char};

verus! {

/// A package name with every `/` replaced by `_`, fit for use as a single
/// path component (`@scope/x` becomes `@scope_x`).
pub open spec fn sanitized(s: Seq<char>) -> Seq<char> {
    s.map_values(|c: char| if c == '/' { '_' } else { c })
}

pub fn sanitize_package_name(package_name: &str) -> (r: String)
    ensures
        r@ == sanitized(package_name@),
{
    let len = package_name.unicode_len();
    let mut out = String::new();
    let mut i: usize = 0;
    while i < len
        invariant
            i <= len,
            len == package_name@.len(),
            out@ == sanitized(package_name@.subrange(0, i as int)),
        decreases len - i,
    {
        let c = package_name.get_char(i);
        if c == '/' {
            push_char(&mut out, '_');
        } else {
            push_char(&mut out, c);
        }
        proof {
            assert(sanitized(package_name@.subrange(0, i + 1 as int)) =~= sanitized(
                package_name@.subrange(0, i as int),
            ).push(if package_name@[i as int] == '/' {
                '_'
            } else {
                package_name@[i as int]
            }));
        }
        i = i + 1;
    }
    proof {
        assert(package_name@.subrange(0, len as int) =~= package_name@);
    }
    out
}

/// The binaries a `bin` metadata entry declares, as `(name, script path)`
/// pairs: a lone script path is named after the package itself.
pub open spec fn binaries_of(package_name: Seq<char>, bin: Option<BinView>) -> Seq<
    (Seq<char>, Seq<char>),
> {
    match bin {
        None => Seq::empty(),
        Some(BinView::Text(path)) => seq![(package_name, path)],
        Some(BinView::Table(entries)) => entries,
    }
}

pub fn extract_binaries(package_name: &str, bin: &Option<NpmBinMetadata>) -> (r: Vec<
    (String, String),
>)
    ensures
        r.deep_view() == binaries_of(
            package_name@,
            match bin {
                Some(b) => Some(b@),
                None => None,
            },
        ),
{
    let mut out: Vec<(String, String)> = Vec::new();
    match bin {
        None => {},
        Some(NpmBinMetadata::Text(path)) => {
            out.push((copy_str(package_name), path.clone()));
            proof {
                assert(out.deep_view() =~~= seq![(package_name@, path@)]);
            }
        },
        Some(NpmBinMetadata::Table(entries)) => {
            let mut i: usize = 0;
            while i < entries.len()
                invariant
                    i <= entries.len(),
                    out.deep_view() =~~= entries.deep_view().subrange(0, i as int),
                decreases entries.len() - i,
            {
                out.push((entries[i].0.clone(), entries[i].1.clone()));
                proof {
                    assert(out.deep_view() =~~= entries.deep_view().subrange(0, i + 1 as int));
                }
                i = i + 1;
            }
            proof {
                assert(entries.deep_view().subrange(0, entries@.len() as int) =~~= entries.deep_view());
            }
        },
    }
    out
}

} // verus!
