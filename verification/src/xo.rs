//! The VM record handed in by the VM directory.

use vstd::prelude::*;

verus! {

/// One virtual machine as the directory reports it: a display name, the
/// attached tags in their original order, and the primary address, which a
/// VM may lack. The library only reads these records.
pub struct Vm {
    pub name_label: String,
    pub tags: Vec<String>,
    pub main_ip_address: Option<String>,
}

/// The mathematical shape of a VM record.
#[verifier::ext_equal]
pub struct VmView {
    pub name_label: Seq<char>,
    pub tags: Seq<Seq<char>>,
    pub main_ip_address: Option<Seq<char>>,
}

impl View for Vm {
    type V = VmView;

    open spec fn view(&self) -> VmView {
        VmView {
            name_label: self.name_label@,
            tags: self.tags.deep_view(),
            main_ip_address: match self.main_ip_address {
                Some(a) => Some(a@),
                None => None,
            },
        }
    }
}

impl DeepView for Vm {
    type V = VmView;

    open spec fn deep_view(&self) -> VmView {
        self.view()
    }
}

} // verus!
