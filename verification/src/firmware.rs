//! Firmware: the floor this system will not go below, the one store its images
//! come from, and what a load that was measured and judged comes to.
//!
//! Measuring a container and judging an image are done elsewhere; what they
//! came to arrives as a value. A container is measured only once the kernel
//! holds its own copy of it, so that nothing can change between the measurement
//! and the use.
use vstd::prelude::*;
use crate::error::KError;

verus! {

/// The lowest firmware security version this system accepts. Raising it
/// retires every image below it for good.
pub const ROLLBACK_FLOOR: u32 = 5;

/// The largest store a component may hand over.
pub const MAX_DELIVERED_STORE: usize = 16384;

/// What an image is judged against.
#[derive(Clone, Copy, PartialEq, Eq, Debug, Structural)]
pub struct Policy {
    pub rollback_floor: u32,
}

/// The system's firmware policy.
pub fn policy() -> (p: Policy)
    ensures
        p == (Policy { rollback_floor: ROLLBACK_FLOOR }),
{
    Policy { rollback_floor: ROLLBACK_FLOOR }
}

/// What the kernel found in a container it could vouch for.
#[derive(Clone, Copy, PartialEq, Eq, Debug, Structural)]
pub struct Mounted {
    /// Which anchor vouches for it.
    pub anchor_id: u64,
    /// Where it ends.
    pub byte_len: usize,
}

/// The store images come from.
pub struct SystemStore {
    region: Vec<u8>,
    staged: Option<Vec<u8>>,
    installed: bool,
}

/// What a [`SystemStore`] holds.
#[verifier::ext_equal]
pub struct StoreView {
    /// The store in use; empty until there is one.
    pub region: Seq<u8>,
    /// The kernel's copy of a store handed over and not yet accepted.
    pub staged: Option<Seq<u8>>,
    /// Whether a component's store has been accepted.
    pub installed: bool,
}

impl StoreView {
    /// A copy handed over is neither empty nor too large, and there is none
    /// once a store has been accepted.
    pub open spec fn wf(self) -> bool {
        &&& self.staged matches Some(s) ==> 0 < s.len() <= MAX_DELIVERED_STORE
        &&& self.installed ==> self.staged is None
    }

    /// Why a store of `len` bytes is not taken, if it is not.
    pub open spec fn delivery_refusal(self, len: int) -> Option<KError> {
        if len == 0 || len > MAX_DELIVERED_STORE {
            Some(KError::InvalidArgument)
        } else if self.installed {
            Some(KError::AlreadyMapped)
        } else {
            None
        }
    }

    /// Whether what was handed over is the store that `anchor` vouches for.
    pub open spec fn vouched(self, mounted: Option<Mounted>, anchor: u64) -> bool {
        self.staged is Some && (mounted matches Some(m) && m.anchor_id == anchor)
    }
}

impl View for SystemStore {
    type V = StoreView;

    closed spec fn view(&self) -> StoreView {
        StoreView {
            region: self.region@,
            staged: match self.staged {
                Some(s) => Some(s@),
                None => None,
            },
            installed: self.installed,
        }
    }
}

impl SystemStore {
    pub open spec fn wf(&self) -> bool {
        self@.wf()
    }

    /// No store at all.
    pub fn new() -> (s: SystemStore)
        ensures
            s.wf(),
            s@ == (StoreView { region: Seq::empty(), staged: None, installed: false }),
    {
        SystemStore { region: Vec::new(), staged: None, installed: false }
    }
}

/// Sets the region images are read from. Called once, at boot.
pub fn set_system_store(store: &mut SystemStore, region: Vec<u8>)
    requires
        old(store).wf(),
    ensures
        final(store).wf(),
        final(store)@ == (StoreView { region: region@, ..old(store)@ }),
{
    store.region = region;
}

/// The region images are read from.
pub fn system_store(store: &SystemStore) -> (r: &[u8])
    ensures
        r@ == store@.region,
{
    store.region.as_slice()
}

/// Whether a store of `len` bytes would be taken: asked before it is read.
pub fn may_deliver(store: &SystemStore, len: usize) -> (r: Result<(), KError>)
    ensures
        match store@.delivery_refusal(len as int) {
            Some(e) => r == Err::<(), _>(e),
            None => r is Ok,
        },
{
    if len == 0 || len > MAX_DELIVERED_STORE {
        return Err(KError::InvalidArgument);
    }
    if store.installed {
        return Err(KError::AlreadyMapped);
    }
    Ok(())
}

/// Takes the kernel's own copy of a store a component hands over, to be
/// measured before it is accepted. A second store is refused whether or not it
/// would verify.
pub fn stage_system_store(store: &mut SystemStore, bytes: &[u8]) -> (r: Result<(), KError>)
    requires
        old(store).wf(),
    ensures
        final(store).wf(),
        match old(store)@.delivery_refusal(bytes@.len() as int) {
            Some(e) => r == Err::<(), _>(e) && final(store)@ == old(store)@,
            None => r is Ok && final(store)@ == (StoreView {
                staged: Some(bytes@),
                ..old(store)@
            }),
        },
{
    if let Err(e) = may_deliver(store, bytes.len()) {
        return Err(e);
    }
    let mut copy: Vec<u8> = Vec::new();
    let mut i: usize = 0;
    while i < bytes.len()
        invariant
            i <= bytes@.len(),
            copy@ == bytes@.take(i as int),
        decreases bytes@.len() - i,
    {
        copy.push(bytes[i]);
        assert(copy@ =~= bytes@.take(i + 1));
        i += 1;
    }
    assert(copy@ =~= bytes@);
    store.staged = Some(copy);
    Ok(())
}

/// The kernel's copy of what was handed over: what is to be measured.
pub fn staged_store(store: &SystemStore) -> (r: Option<&Vec<u8>>)
    ensures
        match r {
            Some(s) => store@.staged == Some(s@),
            None => store@.staged is None,
        },
{
    store.staged.as_ref()
}

/// Accepts what was handed over, whole, if it was measured against this system's
/// anchors and `anchor` vouches for it. Returns its length.
pub fn install_system_store(store: &mut SystemStore, mounted: Option<Mounted>, anchor: u64) -> (r:
    Result<usize, KError>)
    requires
        old(store).wf(),
    ensures
        final(store).wf(),
        if old(store)@.vouched(mounted, anchor) {
            let s = old(store)@.staged->0;
            &&& r == Ok::<usize, KError>(s.len() as usize)
            &&& final(store)@ == (StoreView { region: s, staged: None, installed: true })
        } else {
            &&& r == Err::<usize, KError>(KError::AccessDenied)
            &&& final(store)@ == (StoreView { staged: None, ..old(store)@ })
        },
{
    install_system_store_against(store, mounted, anchor)
}

/// The same, whatever anchors it was measured against.
pub fn install_system_store_against(
    store: &mut SystemStore,
    mounted: Option<Mounted>,
    anchor: u64,
) -> (r: Result<usize, KError>)
    requires
        old(store).wf(),
    ensures
        final(store).wf(),
        if old(store)@.vouched(mounted, anchor) {
            let s = old(store)@.staged->0;
            &&& r == Ok::<usize, KError>(s.len() as usize)
            &&& final(store)@ == (StoreView { region: s, staged: None, installed: true })
        } else {
            &&& r == Err::<usize, KError>(KError::AccessDenied)
            &&& final(store)@ == (StoreView { staged: None, ..old(store)@ })
        },
{
    let staged: Option<Vec<u8>> = store.staged.take();
    let fits: bool = match mounted {
        Some(m) => m.anchor_id == anchor,
        None => false,
    };
    match staged {
        Some(s) => {
            if !fits {
                return Err(KError::AccessDenied);
            }
            let len: usize = s.len();
            store.region = s;
            store.installed = true;
            Ok(len)
        },
        None => Err(KError::AccessDenied),
    }
}

/// Accepts what was handed over, trimmed to where the container ends, if it was
/// measured and `anchor` vouches for it. What was read in whole blocks is
/// longer than the container, and the rest is not part of it. Returns the
/// container's length.
pub fn install_system_store_with(
    store: &mut SystemStore,
    mounted: Option<Mounted>,
    anchor: u64,
) -> (r: Result<usize, KError>)
    requires
        old(store).wf(),
        mounted matches Some(m) ==> (old(store)@.staged matches Some(s) ==> m.byte_len <= s.len()),
    ensures
        final(store).wf(),
        if old(store)@.vouched(mounted, anchor) {
            let m = mounted->0;
            &&& r == Ok::<usize, KError>(m.byte_len)
            &&& final(store)@ == (StoreView {
                region: old(store)@.staged->0.take(m.byte_len as int),
                staged: None,
                installed: true,
            })
        } else {
            &&& r == Err::<usize, KError>(KError::AccessDenied)
            &&& final(store)@ == (StoreView { staged: None, ..old(store)@ })
        },
{
    let end: usize = match mounted {
        Some(m) => m.byte_len,
        None => 0,
    };
    match install_system_store(store, mounted, anchor) {
        Err(e) => Err(e),
        Ok(_) => {
            store.region.truncate(end);
            Ok(end)
        },
    }
}

/// What an image says of itself.
#[derive(Clone, Copy, PartialEq, Eq, Debug, Structural)]
pub struct Image {
    /// Its security version, which the rollback floor is about.
    pub svn: u32,
    pub image_version: u32,
}

/// Why policy declined an image.
#[derive(Clone, Copy, PartialEq, Eq, Debug, Structural)]
pub enum Refusal {
    /// Its security version is below the floor.
    RollbackBlocked,
    /// It is older than what was asked for.
    VersionTooOld,
}

/// Why policy declined an image, as a caller is told.
#[derive(Clone, Copy, PartialEq, Eq, Debug, Structural)]
pub enum FirmwareRefusal {
    /// Policy did not decline anything.
    NotRefused,
    RollbackBlocked,
    VersionTooOld,
}

/// Why a store could not answer, in the store's own numbering.
#[derive(Clone, Copy, PartialEq, Eq, Debug, Structural)]
pub struct StoreError(pub u16);

/// An image as the store measured it.
pub struct Blob {
    pub bytes: Vec<u8>,
    pub svn: u32,
    pub image_version: u32,
    pub digest: [u8; 32],
}

/// An image that was admitted.
pub struct Admitted {
    pub bytes: Vec<u8>,
    pub svn: u32,
    pub image_version: u32,
    pub digest: [u8; 32],
}

/// Why a load gave no image.
#[derive(Clone, Copy, PartialEq, Eq, Debug, Structural)]
pub enum LoadError {
    /// The store had no such image, or would not vouch for the one it had.
    Store(StoreError),
    /// The image is real and policy declined it.
    Policy(Refusal, Image),
    /// The name is not a name.
    BadName,
}

impl LoadError {
    /// The error a caller is given: declined by policy, or nothing that exists
    /// was asked for.
    pub fn code(self) -> (e: KError)
        ensures
            e == if self is Policy {
                KError::PolicyRefused
            } else {
                KError::InvalidArgument
            },
    {
        match self {
            LoadError::Policy(_, _) => KError::PolicyRefused,
            LoadError::Store(_) => KError::InvalidArgument,
            LoadError::BadName => KError::InvalidArgument,
        }
    }

    /// The image the refusal is about, where there was one.
    pub fn image(self) -> (r: Option<Image>)
        ensures
            r == match self {
                LoadError::Policy(_, image) => Some(image),
                LoadError::Store(_) => None,
                LoadError::BadName => None,
            },
    {
        match self {
            LoadError::Policy(_, image) => Some(image),
            LoadError::Store(_) => None,
            LoadError::BadName => None,
        }
    }

    /// What policy declined the image for. An image that does not exist was not
    /// declined.
    pub fn refusal(self) -> (r: FirmwareRefusal)
        ensures
            r == match self {
                LoadError::Policy(Refusal::RollbackBlocked, _) => FirmwareRefusal::RollbackBlocked,
                LoadError::Policy(Refusal::VersionTooOld, _) => FirmwareRefusal::VersionTooOld,
                LoadError::Store(_) => FirmwareRefusal::NotRefused,
                LoadError::BadName => FirmwareRefusal::NotRefused,
            },
    {
        match self {
            LoadError::Policy(Refusal::RollbackBlocked, _) => FirmwareRefusal::RollbackBlocked,
            LoadError::Policy(Refusal::VersionTooOld, _) => FirmwareRefusal::VersionTooOld,
            LoadError::Store(_) => FirmwareRefusal::NotRefused,
            LoadError::BadName => FirmwareRefusal::NotRefused,
        }
    }
}

/// What is reported of an image asked for, for the device it is for.
#[derive(Clone, Copy, PartialEq, Eq, Debug, Structural)]
pub enum FirmwareRecord {
    /// It was refused. `svn` is the image's, or 0 where there was none.
    Refused { device: u64, refusal: FirmwareRefusal, error: KError, svn: u32 },
    /// It was admitted. `lead` is the start of its digest.
    Loaded { device: u64, svn: u32, image_version: u32, lead: u64 },
}

/// The number whose first `n` bytes, highest first, are those of `digest`.
pub open spec fn leading(digest: Seq<u8>, n: int) -> nat
    decreases n,
{
    if n <= 0 {
        0
    } else {
        leading(digest, n - 1) * 256 + digest[n - 1] as nat
    }
}

/// The record of a load that failed before an image was measured: a name that
/// is not a name, a store that would not mount, a handle without authority.
pub fn record_refusal(device: u64, error: KError) -> (r: FirmwareRecord)
    ensures
        r == (FirmwareRecord::Refused {
            device,
            refusal: FirmwareRefusal::NotRefused,
            error,
            svn: 0,
        }),
{
    FirmwareRecord::Refused { device, refusal: FirmwareRefusal::NotRefused, error, svn: 0 }
}

/// The first seven bytes leave room for the eighth.
proof fn lemma_leading(digest: Seq<u8>, n: int)
    requires
        0 <= n <= 7,
    ensures
        leading(digest, n) < 0x100_0000_0000_0000,
{
    reveal_with_fuel(leading, 9);
}

fn lead_of(digest: &[u8; 32]) -> (n: u64)
    ensures
        n == leading(digest@, 8),
{
    let mut n: u64 = 0;
    let mut i: usize = 0;
    while i < 8
        invariant
            i <= 8,
            n == leading(digest@, i as int),
        decreases 8 - i,
    {
        proof {
            lemma_leading(digest@, i as int);
        }
        n = n * 256 + digest[i] as u64;
        i += 1;
    }
    n
}

/// What a load for `device` comes to, where `opened` is the image as the store
/// measured it and `verdict` is what policy said of it. Policy is heard only
/// about an image the store vouches for, and what it decides is reported in
/// `log`, admitted or not.
pub fn load(
    device: u64,
    opened: Result<Blob, StoreError>,
    verdict: Result<(), Refusal>,
    log: &mut Vec<FirmwareRecord>,
) -> (r: Result<Admitted, LoadError>)
    ensures
        match opened {
            Err(e) => r is Err && r->Err_0 == LoadError::Store(e) && final(log)@ == old(log)@,
            Ok(blob) => match verdict {
                Err(refusal) => {
                    &&& r is Err && r->Err_0 == LoadError::Policy(
                        refusal,
                        Image { svn: blob.svn, image_version: blob.image_version },
                    )
                    &&& final(log)@ == old(log)@.push(
                        FirmwareRecord::Refused {
                            device,
                            refusal: match refusal {
                                Refusal::RollbackBlocked => FirmwareRefusal::RollbackBlocked,
                                Refusal::VersionTooOld => FirmwareRefusal::VersionTooOld,
                            },
                            error: KError::PolicyRefused,
                            svn: blob.svn,
                        },
                    )
                },
                Ok(_) => {
                    &&& r matches Ok(a) && a.bytes@ == blob.bytes@ && a.svn == blob.svn
                        && a.image_version == blob.image_version && a.digest == blob.digest
                    &&& final(log)@ == old(log)@.push(
                        FirmwareRecord::Loaded {
                            device,
                            svn: blob.svn,
                            image_version: blob.image_version,
                            lead: leading(blob.digest@, 8) as u64,
                        },
                    )
                },
            },
        },
{
    match opened {
        Err(e) => Err(LoadError::Store(e)),
        Ok(blob) => match verdict {
            Err(refusal) => {
                let error = LoadError::Policy(
                    refusal,
                    Image { svn: blob.svn, image_version: blob.image_version },
                );
                log.push(
                    FirmwareRecord::Refused {
                        device,
                        refusal: error.refusal(),
                        error: error.code(),
                        svn: blob.svn,
                    },
                );
                Err(error)
            },
            Ok(_) => {
                log.push(
                    FirmwareRecord::Loaded {
                        device,
                        svn: blob.svn,
                        image_version: blob.image_version,
                        lead: lead_of(&blob.digest),
                    },
                );
                Ok(
                    Admitted {
                        bytes: blob.bytes,
                        svn: blob.svn,
                        image_version: blob.image_version,
                        digest: blob.digest,
                    },
                )
            },
        },
    }
}

/// A store that has been accepted cannot be replaced by another component:
/// whatever is handed over next is refused.
pub proof fn law_the_root_of_trust_is_set_once(v: StoreView, len: int)
    requires
        v.wf(),
        v.installed,
    ensures
        v.delivery_refusal(len) is Some,
        forall|mounted: Option<Mounted>, anchor: u64| !#[trigger] v.vouched(mounted, anchor),
{
}

/// A delivery is refused when it is empty or too large, and once a store is
/// installed; a staged store is vouched for only by a mount under the anchor.
pub proof fn law_a_delivery_is_refused_for_cause(
    v: StoreView,
    len: int,
    mounted: Option<Mounted>,
    anchor: u64,
)
    requires
        len >= 0,
    ensures
        len == 0 || len > MAX_DELIVERED_STORE ==> v.delivery_refusal(len) == Some(
            KError::InvalidArgument,
        ),
        0 < len <= MAX_DELIVERED_STORE && v.installed ==> v.delivery_refusal(len) == Some(
            KError::AlreadyMapped,
        ),
        0 < len <= MAX_DELIVERED_STORE && !v.installed ==> v.delivery_refusal(len) is None,
        v.vouched(mounted, anchor) <==> v.staged is Some && mounted is Some
            && mounted->0.anchor_id == anchor,
{
}

/// The leading bytes of a digest are read highest first.
pub proof fn law_the_lead_of_a_digest(digest: Seq<u8>, n: int)
    requires
        0 < n <= digest.len(),
    ensures
        leading(digest, n) == leading(digest, n - 1) * 256 + digest[n - 1],
        leading(digest, 0) == 0,
        leading(digest, 1) == digest[0],
{
    assert(leading(digest, 1) == leading(digest, 0) * 256 + digest[0]);
}

} // verus!
