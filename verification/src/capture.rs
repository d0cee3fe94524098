//! Raw L2 packet capture: what a per-interface handle knows, and the decisions around opening one
//! and reading it. The system calls are the caller's.

use vstd::prelude::*;

use crate::errno::Errno;
use crate::net::LinkType;
use crate::number;
use crate::text;

verus! {

/// A raw-capture handle on one interface. No cached ifindex: the bind holds it, so nothing here goes
/// stale when the index changes.
#[derive(PartialEq, Eq, Debug)]
pub struct Capture {
    pub fd: i32,
    pub link_type: LinkType,
    pub name: String,
}

impl Capture {
    pub fn new(fd: i32, link_type: LinkType, name: &str) -> (r: Self)
        ensures
            r.fd == fd,
            r.link_type == link_type,
            r.name@ == name@,
    {
        Capture { fd, link_type, name: name.to_owned() }
    }

    pub fn link_type(&self) -> (r: LinkType)
        ensures
            r == self.link_type,
    {
        self.link_type
    }

    pub fn if_name(&self) -> (r: &str)
        ensures
            r@ == self.name@,
    {
        self.name.as_str()
    }

    pub fn as_raw_fd(&self) -> (r: i32)
        ensures
            r == self.fd,
    {
        self.fd
    }
}

/// One instruction of the kernel's packet filter.
#[derive(Clone, Copy, PartialEq, Eq, Structural, Debug)]
pub struct BpfInsn {
    pub code: u16,
    pub jt: u8,
    pub jf: u8,
    pub k: u32,
}

/// One read of a capture.
#[derive(Clone, Copy, PartialEq, Eq, Structural, Debug)]
pub enum Read {
    /// A frame of that many bytes is in the buffer.
    Frame(usize),
    /// A frame too large to forward, dropped and counted.
    Oversized,
}

/// `ARPHRD_ETHER`
pub const ARPHRD_ETHER: u16 = 1;

/// `ARPHRD_LOOPBACK`
pub const ARPHRD_LOOPBACK: u16 = 772;

/// `ARPHRD_NONE`
pub const ARPHRD_NONE: u16 = 0xfffe;

/// The framing of a hardware type: Ethernet (a loopback is framed the same) or raw IP (`WireGuard`,
/// tun).
pub open spec fn framing(hardware: u16) -> Option<LinkType> {
    if hardware == ARPHRD_ETHER || hardware == ARPHRD_LOOPBACK {
        Some(LinkType::Ethernet)
    } else if hardware == ARPHRD_NONE {
        Some(LinkType::RawIp)
    } else {
        None
    }
}

/// The framing of the hardware type that the system names, or why there is none.
pub fn link_type_of(hardware: u16) -> (r: Result<LinkType, String>)
    ensures
        match r {
            Ok(link_type) => framing(hardware) == Some(link_type),
            Err(said) => framing(hardware) is None && said@ == "hardware type "@
                + number::decimal(hardware as nat) + " is neither Ethernet nor a raw IP link"@,
        },
{
    if hardware == ARPHRD_ETHER || hardware == ARPHRD_LOOPBACK {
        Ok(LinkType::Ethernet)
    } else if hardware == ARPHRD_NONE {
        Ok(LinkType::RawIp)
    } else {
        let mut said = "hardware type ".to_owned();
        text::push_decimal(&mut said, hardware as u64);
        said.append(" is neither Ethernet nor a raw IP link");
        Err(said)
    }
}

/// The kernel parks `ENETDOWN` on a packet socket whose interface was unregistered.
#[verifier::allow_in_spec]
pub fn lost_interface(err: Errno) -> (r: bool)
    returns
        err == Errno::NetworkDown,
{
    matches!(err, Errno::NetworkDown)
}

/// Whether a socket is still bound to the live interface `ifindex`, given the index it names, where
/// it names one. The kernel resets the bound index to -1 when the interface is unregistered, so a
/// destroyed or recreated interface compares unequal.
#[verifier::allow_in_spec]
pub fn attached(bound: Option<i32>, ifindex: u32) -> (r: bool)
    returns
        bound is Some && bound->0 >= 0 && bound->0 as int == ifindex as int,
{
    match bound {
        Some(index) => index >= 0 && index as u32 == ifindex,
        None => false,
    }
}

/// What a read of `bytes` into a buffer of `capacity` gives. The system reports the frame's real
/// length even past the buffer, so an oversized frame is dropped instead of silently cut.
#[verifier::allow_in_spec]
pub fn next_frame(bytes: usize, capacity: usize) -> (r: Read)
    returns
        (if bytes > capacity {
            Read::Oversized
        } else {
            Read::Frame(bytes)
        }),
{
    if bytes > capacity {
        Read::Oversized
    } else {
        Read::Frame(bytes)
    }
}

/// The classifier behind the instructions that drop outgoing frames: loop prevention for a kernel
/// that has no option for it. A hairpin bridge port returns our frames as received ones and gets past
/// both; the dispatcher's echo drop catches those.
pub fn drop_outgoing_filter(prologue: &[BpfInsn], classifier: &[BpfInsn]) -> (r: Vec<BpfInsn>)
    ensures
        r@ == prologue@ + classifier@,
{
    let mut out: Vec<BpfInsn> = Vec::new();
    push_all(&mut out, prologue);
    push_all(&mut out, classifier);
    out
}

fn push_all(out: &mut Vec<BpfInsn>, insns: &[BpfInsn])
    ensures
        final(out)@ == old(out)@ + insns@,
{
    let mut i: usize = 0;
    while i < insns.len()
        invariant
            i <= insns@.len(),
            out@ == old(out)@ + insns@.take(i as int),
        decreases insns@.len() - i,
    {
        out.push(insns[i]);
        assert(out@ =~= old(out)@ + insns@.take(i as int + 1));
        i += 1;
    }
    assert(insns@.take(i as int) =~= insns@);
}

/// The program to install: the classifier, with outgoing frames dropped in it where the kernel's own
/// option is not available.
pub fn install_filter(prologue: &[BpfInsn], classifier: &[BpfInsn], ignores_outgoing: bool) -> (r:
    Vec<BpfInsn>)
    ensures
        r@ == (if ignores_outgoing {
            classifier@
        } else {
            prologue@ + classifier@
        }),
{
    if ignores_outgoing {
        let mut out: Vec<BpfInsn> = Vec::new();
        push_all(&mut out, classifier);
        assert(out@ =~= classifier@);
        out
    } else {
        drop_outgoing_filter(prologue, classifier)
    }
}

/// The index to bind to, as the system takes it, or why there is none.
pub fn resolve_ifindex(if_name: &str, found: Option<u32>) -> (r: Result<i32, String>)
    ensures
        match r {
            Ok(index) => found is Some && index == found->0,
            Err(said) => if found is None {
                said@ == "interface "@ + if_name@ + " not found"@
            } else {
                found->0 > i32::MAX && said@ == "interface index too large"@
            },
        },
{
    match found {
        None => {
            let mut said = "interface ".to_owned();
            said.append(if_name);
            said.append(" not found");
            Err(said)
        },
        Some(index) => {
            if index > i32::MAX as u32 {
                Err("interface index too large".to_owned())
            } else {
                Ok(index as i32)
            }
        },
    }
}

/// What came of handing `len` bytes to the system, which took `sent` of them.
pub fn send_outcome(sent: usize, len: usize) -> (r: Result<(), String>)
    ensures
        match r {
            Ok(()) => sent == len,
            Err(said) => sent != len && said@ == "short send to AF_PACKET socket"@,
        },
{
    if sent != len {
        Err("short send to AF_PACKET socket".to_owned())
    } else {
        Ok(())
    }
}

/// Ethernet and loopback hardware is framed as Ethernet, hardware without a link header as raw IP, and no
/// other hardware is taken.
pub proof fn law_three_kinds_of_hardware_are_framed(hardware: u16)
    ensures
        framing(hardware) == Some(LinkType::Ethernet) <==> hardware == 1 || hardware == 772,
        framing(hardware) == Some(LinkType::RawIp) <==> hardware == 65534,
        framing(hardware) is None <==> hardware != 1 && hardware != 772 && hardware != 65534,
{
}

/// A frame that fits the buffer is read whole, and a longer one not at all.
pub proof fn law_a_frame_is_whole_or_dropped(bytes: usize, capacity: usize)
    ensures
        bytes <= capacity ==> next_frame(bytes, capacity) == Read::Frame(bytes),
        bytes > capacity ==> next_frame(bytes, capacity) == Read::Oversized,
{
}

/// A socket is attached to the interface whose index it names, and to none where it names none or a
/// negative one.
pub proof fn law_a_socket_is_attached_to_the_index_it_names(index: i32, ifindex: u32)
    ensures
        attached(Some(index), ifindex) <==> index == ifindex,
        !attached(None, ifindex),
{
}

} // verus!
