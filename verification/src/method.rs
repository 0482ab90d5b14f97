//! The spectral clustering methods and their names.
use vstd::prelude::*;

verus! {

/// Which matrix the eigenvectors are taken from.
#[derive(Clone, Copy, Debug, PartialEq, Eq, Structural)]
pub enum ClusterMethod {
    /// Ng-Jordan-Weiss: normalized Laplacian, rows of the embedding normalized.
    Normalized,
    /// Ratio cut: unnormalized Laplacian.
    Unnormalized,
    /// Newman's modularity matrix.
    Modularity,
}

/// Byte-wise equality of two strings.
fn same_text(a: &str, b: &str) -> (res: bool)
    ensures
        res == (a@ == b@),
{
    let x = a.as_bytes();
    let y = b.as_bytes();
    proof {
        vstd::utf8::encode_utf8_decode_utf8(a@);
        vstd::utf8::encode_utf8_decode_utf8(b@);
    }
    if x.len() != y.len() {
        return false;
    }
    let mut p: usize = 0;
    while p < x.len()
        invariant
            x@ == vstd::utf8::encode_utf8(a@),
            y@ == vstd::utf8::encode_utf8(b@),
            x@.len() == y@.len(),
            0 <= p <= x@.len(),
            forall|q: int| 0 <= q < p ==> x@[q] == y@[q],
        decreases x@.len() - p,
    {
        if x[p] != y[p] {
            return false;
        }
        p = p + 1;
    }
    assert(x@ =~= y@);
    true
}

impl ClusterMethod {
    /// The method a name stands for: "normalized", "unnormalized" or
    /// "modularity"; `None` for any other name.
    pub fn from_name(name: &str) -> (res: Option<ClusterMethod>)
        ensures
            res == Some(ClusterMethod::Normalized) <==> name@ == "normalized"@,
            res == Some(ClusterMethod::Unnormalized) <==> name@ == "unnormalized"@,
            res == Some(ClusterMethod::Modularity) <==> name@ == "modularity"@,
            res is None <==> (name@ != "normalized"@ && name@ != "unnormalized"@ && name@
                != "modularity"@),
    {
        proof {
            reveal_strlit("normalized");
            reveal_strlit("unnormalized");
            reveal_strlit("modularity");
            assert("normalized"@.len() != "unnormalized"@.len());
            assert("modularity"@.len() != "unnormalized"@.len());
            assert("normalized"@[0] != "modularity"@[0]);
        }
        if same_text(name, "normalized") {
            Some(ClusterMethod::Normalized)
        } else if same_text(name, "unnormalized") {
            Some(ClusterMethod::Unnormalized)
        } else if same_text(name, "modularity") {
            Some(ClusterMethod::Modularity)
        } else {
            None
        }
    }
}

} // verus!
