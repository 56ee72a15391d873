//! Backend selection: try the encoders in preference order, NVENC, Quick
//! Sync, AMF, then Media Foundation as the fallback, and report what became
//! of each.

use vstd::prelude::*;
use vstd::string::*;

use crate::encoder::backends;
use crate::encoder::config::EncoderConfig;
use crate::encoder::video::EncoderError;

verus! {

/// The candidate backends.
#[derive(Debug, Clone, Copy, PartialEq, Eq, Structural)]
pub enum Backend {
    Nvenc,
    QuickSync,
    Amf,
    MediaFoundation,
}

/// The `i`-th backend in preference order.
pub open spec fn preference(i: int) -> Backend {
    if i == 0 {
        Backend::Nvenc
    } else if i == 1 {
        Backend::QuickSync
    } else if i == 2 {
        Backend::Amf
    } else {
        Backend::MediaFoundation
    }
}

impl Backend {
    /// The candidates, in preference order.
    pub const PREFERENCE_ORDER: [Backend; 4] = [
        Backend::Nvenc,
        Backend::QuickSync,
        Backend::Amf,
        Backend::MediaFoundation,
    ];

    /// The backend's name.
    pub open spec fn spec_name(self) -> Seq<char> {
        match self {
            Backend::Nvenc => "NVENC"@,
            Backend::QuickSync => "QuickSync"@,
            Backend::Amf => "AMF"@,
            Backend::MediaFoundation => "MediaFoundation"@,
        }
    }

    /// The backend's name for logs.
    pub fn name(self) -> (r: &'static str)
        ensures
            r@ == self.spec_name(),
    {
        match self {
            Backend::Nvenc => "NVENC",
            Backend::QuickSync => "QuickSync",
            Backend::Amf => "AMF",
            Backend::MediaFoundation => "MediaFoundation",
        }
    }
}

/// What probing one backend found, so the whole chain can be reported
/// whether or not one was selected.
#[derive(Debug, Clone)]
pub struct BackendStatus {
    pub backend: Backend,
    pub available: bool,
    pub detail: String,
}

/// Why a backend other than Media Foundation cannot be created.
pub open spec fn stub_reason(b: Backend) -> Seq<char> {
    match b {
        Backend::Nvenc => backends::nvenc::unavailable_reason(),
        Backend::QuickSync => backends::qsv::unavailable_reason(),
        Backend::Amf => backends::amf::unavailable_reason(),
        Backend::MediaFoundation => Seq::empty(),
    }
}

/// `e` is an encoder that `create` may give for `config`.
pub open spec fn created_by<E, F>(create: F, config: &EncoderConfig, e: E) -> bool where
    F: Fn(&EncoderConfig) -> Result<E, EncoderError>,
 {
    exists|res: Result<E, EncoderError>|
        call_ensures(create, (config,), res) && res is Ok && res->Ok_0 == e
}

/// `create` may fail for `config` with an error whose message is `detail`.
pub open spec fn failed_with<E, F>(create: F, config: &EncoderConfig, detail: Seq<char>) -> bool where
    F: Fn(&EncoderConfig) -> Result<E, EncoderError>,
 {
    exists|res: Result<E, EncoderError>|
        call_ensures(create, (config,), res) && res is Err && res->Err_0.message_view() == detail
}

fn preference_at(i: usize) -> (b: Backend)
    requires
        i < 4,
    ensures
        b == preference(i as int),
{
    Backend::PREFERENCE_ORDER[i]
}

fn try_backend<E, F>(backend: Backend, config: &EncoderConfig, media_foundation: &F) -> (r: Result<
    E,
    EncoderError,
>) where F: Fn(&EncoderConfig) -> Result<E, EncoderError>
    requires
        backend == Backend::MediaFoundation ==> call_requires(*media_foundation, (config,)),
    ensures
        backend != Backend::MediaFoundation ==> (r matches Err(EncoderError::Unavailable(s)) && s@
            == stub_reason(backend)),
        backend == Backend::MediaFoundation ==> call_ensures(*media_foundation, (config,), r),
{
    match backend {
        Backend::Nvenc => backends::nvenc::create::<E>(config),
        Backend::QuickSync => backends::qsv::create::<E>(config),
        Backend::Amf => backends::amf::create::<E>(config),
        Backend::MediaFoundation => media_foundation(config),
    }
}

/// Build an encoder, walking the preference order, and return it (if any)
/// with the status of every backend tried. The vendor backends are not
/// available yet; Media Foundation is created by `media_foundation`, since it
/// needs the operating system's media runtime. `E` is the encoder type the
/// caller works with, such as a boxed
/// [`crate::encoder::VideoEncoder`].
pub fn select_encoder<E, F>(config: &EncoderConfig, media_foundation: F) -> (r: (
    Option<E>,
    Vec<BackendStatus>,
)) where F: Fn(&EncoderConfig) -> Result<E, EncoderError>
    requires
        call_requires(media_foundation, (config,)),
    ensures
        r.1@.len() == 4,
        forall|i: int| 0 <= i < 4 ==> (#[trigger] r.1@[i]).backend == preference(i),
        forall|i: int|
            0 <= i < 3 ==> !(#[trigger] r.1@[i]).available && r.1@[i].detail@
                == "backend is not available: "@ + stub_reason(preference(i)),
        r.1@[3].available == r.0 is Some,
        r.0 matches Some(e) ==> created_by(media_foundation, config, e) && r.1@[3].detail@
            == "selected"@,
        r.0 is None ==> failed_with(media_foundation, config, r.1@[3].detail@),
{
    let mut statuses: Vec<BackendStatus> = Vec::new();
    let mut chosen: Option<E> = None;
    let mut i: usize = 0;
    while i < 4
        invariant
            i <= 4,
            call_requires(media_foundation, (config,)),
            statuses@.len() == i,
            forall|k: int| 0 <= k < i ==> (#[trigger] statuses@[k]).backend == preference(k),
            forall|k: int|
                0 <= k < i && k < 3 ==> !(#[trigger] statuses@[k]).available && statuses@[k].detail@
                    == "backend is not available: "@ + stub_reason(preference(k)),
            i <= 3 ==> chosen is None,
            i == 4 ==> statuses@[3].available == chosen is Some,
            i == 4 ==> (chosen matches Some(e) ==> created_by(media_foundation, config, e)
                && statuses@[3].detail@ == "selected"@),
            i == 4 ==> (chosen is None ==> failed_with(
                media_foundation,
                config,
                statuses@[3].detail@,
            )),
        decreases 4 - i,
    {
        let backend = preference_at(i);
        if chosen.is_some() {
            statuses.push(
                BackendStatus {
                    backend,
                    available: false,
                    detail: String::from_str("not tried (earlier backend selected)"),
                },
            );
        } else {
            let res = try_backend(backend, config, &media_foundation);
            let ghost outcome = res;
            match res {
                Ok(encoder) => {
                    assert(call_ensures(media_foundation, (config,), outcome) && outcome is Ok
                        && outcome->Ok_0 == encoder);
                    statuses.push(
                        BackendStatus { backend, available: true, detail: String::from_str("selected") },
                    );
                    chosen = Some(encoder);
                },
                Err(err) => {
                    let detail = err.message();
                    statuses.push(BackendStatus { backend, available: false, detail });
                },
            }
        }
        i = i + 1;
    }
    (chosen, statuses)
}

} // verus!
