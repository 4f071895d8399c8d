//! Selection of usable local interfaces. The operating system's interface
//! list is enumerated by the surrounding program; the selection rule — keep
//! every IPv4 address that is not loopback — lives here.

use vstd::prelude::*;

use crate::addr::Ipv4;

verus! {

/// One entry of the operating system's interface enumeration, reduced to
/// what the selection rule reads: the interface name and its IPv4 address,
/// if it has one.
#[derive(Debug, Clone)]
pub struct RawInterface {
    pub name: String,
    pub addr: Option<Ipv4>,
}

/// A usable local interface: named, with a non-loopback IPv4 address.
#[derive(Debug, Clone)]
pub struct Interface {
    pub name: String,
    pub addr: Ipv4,
}

/// Whether the selection keeps an enumerated entry.
pub open spec fn keeps(r: RawInterface) -> bool {
    match r.addr {
        Some(ip) => !ip.is_loopback(),
        None => false,
    }
}

/// The selected interfaces, in enumeration order.
pub open spec fn selected(raw: Seq<RawInterface>) -> Seq<Interface>
    decreases raw.len(),
{
    if raw.len() == 0 {
        Seq::empty()
    } else {
        let rest = selected(raw.drop_first());
        if keeps(raw.first()) {
            seq![Interface { name: raw.first().name, addr: raw.first().addr->Some_0 }] + rest
        } else {
            rest
        }
    }
}

/// Keeps every enumerated entry with a non-loopback IPv4 address, in order.
pub fn select_interfaces(raw: Vec<RawInterface>) -> (out: Vec<Interface>)
    ensures
        out@ == selected(raw@),
{
    let ghost all = raw@;
    let mut rest = raw;
    let mut out: Vec<Interface> = Vec::new();
    proof {
        assert(out@ + selected(rest@) =~= selected(all));
    }
    while rest.len() > 0
        invariant
            selected(all) == out@ + selected(rest@),
        decreases rest@.len(),
    {
        let ghost pre_rest = rest@;
        let ghost pre_out = out@;
        let r = rest.remove(0);
        proof {
            assert(rest@ =~= pre_rest.drop_first());
            assert(pre_rest.first() == r);
        }
        match r.addr {
            Some(ip) => {
                if !ip.loopback() {
                    let picked = Interface { name: r.name, addr: ip };
                    out.push(picked);
                    proof {
                        assert(keeps(pre_rest.first()));
                        assert(selected(pre_rest) =~= seq![picked] + selected(rest@));
                        assert(out@ =~= pre_out.push(picked));
                        assert(pre_out + (seq![picked] + selected(rest@)) =~= out@ + selected(
                            rest@,
                        ));
                    }
                } else {
                    proof {
                        assert(!keeps(pre_rest.first()));
                        assert(selected(pre_rest) == selected(rest@));
                    }
                }
            },
            None => {
                proof {
                    assert(!keeps(pre_rest.first()));
                    assert(selected(pre_rest) == selected(rest@));
                }
            },
        }
    }
    proof {
        assert(rest@.len() == 0);
        assert(selected(rest@) =~= Seq::<Interface>::empty());
        assert(out@ + selected(rest@) =~= out@);
    }
    out
}

} // verus!
