//! What the monitor asks of the system outside `systemctl`: the `kill`
//! command line that ends a process, and which DRM entries are GPU cards of
//! which vendor.

use vstd::prelude::*;

use crate::icons::strings_of;
use crate::text::{
    chars_eq_str, chars_of, contains_sub, decimal, decimal_chars, starts_with_str, string_of,
    string_views, trim, trim_str, views,
};

verus! {

/// Arguments of `kill` that end process `pid`: `-TERM`, or `-KILL` when
/// forced.
pub fn kill_args(pid: u32, force: bool) -> (r: Vec<String>)
    ensures
        string_views(r@) == seq![
            if force {
                "-KILL"@
            } else {
                "-TERM"@
            },
            decimal(pid as nat),
        ],
{
    let sig = if force {
        chars_of("-KILL")
    } else {
        chars_of("-TERM")
    };
    let args = vec![sig, decimal_chars(pid as u64)];
    assert(views(args@) =~= seq![
        if force {
            "-KILL"@
        } else {
            "-TERM"@
        },
        decimal(pid as nat),
    ]);
    strings_of(&args)
}

/// A DRM entry names a card (`card0`, not `card0-DP-1`): it starts with
/// `card` and holds no `-`.
pub open spec fn is_card(name: Seq<char>) -> bool {
    "card"@.is_prefix_of(name) && !name.contains('-')
}

/// Whether the DRM entry `name` is a card.
pub fn is_card_entry(name: &str) -> (r: bool)
    ensures
        r == is_card(name@),
{
    let n = chars_of(name);
    if !starts_with_str(&n, "card") {
        return false;
    }
    let mut i: usize = 0;
    while i < n.len()
        invariant
            n@ == name@,
            i <= n@.len(),
            forall|j: int| 0 <= j < i ==> n@[j] != '-',
        decreases n@.len() - i,
    {
        if n[i] == '-' {
            assert(n@.contains('-'));
            return false;
        }
        i += 1;
    }
    assert(!n@.contains('-')) by {
        if n@.contains('-') {
            let j = choose|j: int| 0 <= j < n@.len() && n@[j] == '-';
            assert(n@[j] != '-');
        }
    }
    true
}

/// The GPU vendors read from sysfs.
#[derive(Clone, Copy, Debug, PartialEq, Eq, Structural)]
pub enum CardVendor {
    Amd,
    Intel,
}

/// The vendor of a card from its PCI vendor id as sysfs gives it.
pub open spec fn vendor_of(text: Seq<char>) -> Option<CardVendor> {
    if trim(text) == "0x1002"@ {
        Some(CardVendor::Amd)
    } else if trim(text) == "0x8086"@ {
        Some(CardVendor::Intel)
    } else {
        None
    }
}

/// The vendor of a card from the text of its `device/vendor` file.
pub fn card_vendor(vendor_text: &str) -> (r: Option<CardVendor>)
    ensures
        r == vendor_of(vendor_text@),
{
    let t = trim_str(vendor_text);
    if chars_eq_str(&t, "0x1002") {
        Some(CardVendor::Amd)
    } else if chars_eq_str(&t, "0x8086") {
        Some(CardVendor::Intel)
    } else {
        None
    }
}

/// The model name of a card: its `label`, trimmed, when it has a non-blank
/// one, else the name of its DRM entry.
pub fn gpu_model_name(label: Option<&str>, card_name: &str) -> (r: String)
    ensures
        r@ == (match label {
            Some(l) => if trim(l@).len() > 0 {
                trim(l@)
            } else {
                card_name@
            },
            None => card_name@,
        }),
{
    match label {
        Some(l) => {
            let t = trim_str(l);
            if t.len() > 0 {
                return string_of(&t);
            }
        },
        None => {},
    }
    string_of(&chars_of(card_name))
}

} // verus!
