//! Pulling of images.
//!
//! A [`Pull`] decides what has to be done next to pull an image. It does nothing
//! by itself: its owner does what [`Pull::state`] asks for and reports with
//! [`Pull::step`] what came of it.
use vstd::prelude::*;
use vstd::string::*;

use crate::puller::registry::{self, ImageRef};
use crate::puller::secret::{self, ImagePullSecret};
use crate::text;

verus! {

/// Main type of library, which supports loading and unpacking
/// images.
pub struct Puller {
    /// These secrets will be used to authenticate in registry.
    secrets: Vec<ImagePullSecret>,
}

/// How a registry is talked to.
#[derive(Copy, Clone, Debug, PartialEq, Eq, Structural)]
pub enum Tls {
    /// Require TLS
    Enable,
    /// Disable TLS (insecure).
    Disable,
}

impl Default for Tls {
    fn default() -> (tls: Self)
        ensures
            tls == Tls::Enable,
    {
        Tls::Enable
    }
}

/// How to pull.
#[derive(Copy, Clone, Debug)]
pub struct PullSettings {
    /// Tls mode
    pub tls: Tls,
}

impl Default for PullSettings {
    fn default() -> (settings: Self)
        ensures
            settings.tls == Tls::Enable,
    {
        PullSettings { tls: Tls::default() }
    }
}

/// Why an image was not pulled.
#[derive(Debug)]
pub enum PullError {
    Client(dkregistry::errors::Error),
    RefParse(dkregistry::reference::ReferenceParseError),
    LoginFailed,
    ImageNotExists(String),
    Unpack(dkregistry::render::RenderError),
    Cancelled,
    CreateDest(std::io::Error),
}

/// What an error says.
pub open spec fn error_text(error: PullError) -> Seq<char> {
    match error {
        PullError::Client(_) => "registry communication error"@,
        PullError::RefParse(_) => "invalid reference"@,
        PullError::LoginFailed => "login failure: obtained token is invalid"@,
        PullError::ImageNotExists(image) => "image "@ + image@ + " does not exist"@,
        PullError::Unpack(_) => "unpack failed"@,
        PullError::Cancelled => "operation was cancelled"@,
        PullError::CreateDest(_) => "failed to create destination dir"@,
    }
}

impl PullError {
    /// What failed, in words.
    pub fn description(&self) -> (description: String)
        ensures
            description@ == error_text(*self),
    {
        match self {
            PullError::Client(_) => "registry communication error".to_owned(),
            PullError::RefParse(_) => "invalid reference".to_owned(),
            PullError::LoginFailed => "login failure: obtained token is invalid".to_owned(),
            PullError::ImageNotExists(image) => {
                let mut description: String = "image ".to_owned();
                description.append(image.as_str());
                description.append(" does not exist");
                description
            },
            PullError::Unpack(_) => "unpack failed".to_owned(),
            PullError::Cancelled => "operation was cancelled".to_owned(),
            PullError::CreateDest(_) => "failed to create destination dir".to_owned(),
        }
    }
}

/// The architecture that layers are fetched for.
pub const IMAGE_ARCHITECTURE: &'static str = "amd64";

/// How a registry is reached.
pub struct RegistryConfig {
    pub registry: String,
    pub username: Option<String>,
    pub password: Option<String>,
    pub insecure: bool,
}

/// What is to be done next.
pub enum PullState {
    /// Make a client for the registry.
    Connect(RegistryConfig),
    /// Ask the registry whether the client is logged in. `again` if it was asked before.
    CheckAuth { again: bool },
    /// Log in to get a token with this scope.
    Authenticate { scope: String },
    /// Ask the registry whether it has the image.
    FindManifest,
    /// Create the destination directory.
    CreateDestination,
    /// Fetch the manifest.
    GetManifest,
    /// List the layers, see [`Pull::list_layers`].
    ListLayers(dkregistry::v2::manifest::Manifest),
    /// Download the layer `digests[next]`.
    GetBlob { manifest: dkregistry::v2::manifest::Manifest, digests: Vec<String>, next: usize },
    /// Unpack the layer `digests[next]`, which is `data`.
    Unpack {
        manifest: dkregistry::v2::manifest::Manifest,
        digests: Vec<String>,
        next: usize,
        data: Vec<u8>,
    },
    /// Nothing: this is what the pull came to.
    Finished(Result<dkregistry::v2::manifest::Manifest, PullError>),
}

/// What came of what was to be done.
pub enum PullEvent {
    Connected(Result<(), dkregistry::errors::Error>),
    /// Whether the client is logged in.
    AuthChecked(Result<bool, dkregistry::errors::Error>),
    Authenticated(Result<(), dkregistry::errors::Error>),
    /// Whether the registry has the image.
    ManifestFound(Result<bool, dkregistry::errors::Error>),
    DestinationCreated(Result<(), std::io::Error>),
    ManifestFetched(Result<dkregistry::v2::manifest::Manifest, dkregistry::errors::Error>),
    LayersListed(Result<Vec<String>, dkregistry::errors::Error>),
    /// The layer, and whether the pull was cancelled while it was downloaded.
    BlobFetched { data: Result<Vec<u8>, dkregistry::errors::Error>, cancelled: bool },
    Unpacked(Result<(), dkregistry::render::RenderError>),
}

/// One image on its way.
pub struct Pull {
    /// The image, as it was asked for.
    pub image: String,
    /// What that means.
    pub reference: ImageRef,
    /// What is to be done next.
    pub state: PullState,
}

impl PullState {
    /// There is a layer to fetch or unpack whenever one is asked for.
    pub open spec fn wf(self) -> bool {
        match self {
            PullState::GetBlob { manifest, digests, next } => next < digests.len(),
            PullState::Unpack { manifest, digests, next, data } => next < digests.len(),
            _ => true,
        }
    }

    /// Whether the event can be what came of this.
    pub open spec fn expects(self, event: PullEvent) -> bool {
        match event {
            PullEvent::Connected(_) => self is Connect,
            PullEvent::AuthChecked(_) => self is CheckAuth,
            PullEvent::Authenticated(_) => self is Authenticate,
            PullEvent::ManifestFound(_) => self is FindManifest,
            PullEvent::DestinationCreated(_) => self is CreateDestination,
            PullEvent::ManifestFetched(_) => self is GetManifest,
            PullEvent::LayersListed(_) => self is ListLayers,
            PullEvent::BlobFetched { data, cancelled } => self is GetBlob,
            PullEvent::Unpacked(_) => self is Unpack,
        }
    }
}

/// Whether a pull that has nothing but layers `next` and later left to fetch is in `state`.
pub open spec fn fetching(
    state: PullState,
    manifest: dkregistry::v2::manifest::Manifest,
    digests: Seq<String>,
    next: int,
) -> bool {
    if next < digests.len() {
        state matches PullState::GetBlob { manifest: m, digests: d, next: n } && m == manifest
            && d@ == digests && n == next
    } else {
        state == PullState::Finished(Ok(manifest))
    }
}

/// Whether `state` is that of a pull which failed for the given reason.
pub open spec fn failed(state: PullState, error: PullError) -> bool {
    state == PullState::Finished(Err(error))
}

/// Whether a pull is in `state` after the event.
pub open spec fn follows(pull: Pull, event: PullEvent, state: PullState) -> bool {
    match event {
        // Each thing that goes wrong ends the pull.
        PullEvent::Connected(Err(err)) => failed(state, PullError::Client(err)),
        PullEvent::AuthChecked(Err(err)) => failed(state, PullError::Client(err)),
        PullEvent::Authenticated(Err(err)) => failed(state, PullError::Client(err)),
        PullEvent::ManifestFound(Err(err)) => failed(state, PullError::Client(err)),
        PullEvent::DestinationCreated(Err(err)) => failed(state, PullError::CreateDest(err)),
        PullEvent::ManifestFetched(Err(err)) => failed(state, PullError::Client(err)),
        PullEvent::LayersListed(Err(err)) => failed(state, PullError::Client(err)),
        PullEvent::BlobFetched { data: Err(err), cancelled } => failed(state, PullError::Client(err)),
        PullEvent::Unpacked(Err(err)) => failed(state, PullError::Unpack(err)),
        // Otherwise the next thing is done. The client logs in only if it has to, and only once.
        PullEvent::Connected(Ok(())) => state == (PullState::CheckAuth { again: false }),
        PullEvent::AuthChecked(Ok(true)) => state == PullState::FindManifest,
        PullEvent::AuthChecked(Ok(false)) => if pull.state == (PullState::CheckAuth {
            again: true,
        }) {
            failed(state, PullError::LoginFailed)
        } else {
            state matches PullState::Authenticate { scope } && scope@ == token_scope(
                pull.reference.repository@,
            )
        },
        PullEvent::Authenticated(Ok(())) => state == (PullState::CheckAuth { again: true }),
        PullEvent::ManifestFound(Ok(true)) => state == PullState::CreateDestination,
        PullEvent::ManifestFound(Ok(false)) => failed(state, PullError::ImageNotExists(pull.image)),
        PullEvent::DestinationCreated(Ok(())) => state == PullState::GetManifest,
        PullEvent::ManifestFetched(Ok(manifest)) => state == PullState::ListLayers(manifest),
        PullEvent::LayersListed(Ok(digests)) => fetching(
            state,
            pull.state->ListLayers_0,
            digests@,
            0,
        ),
        // A pull can be cancelled between the download and the unpacking of each layer.
        PullEvent::BlobFetched { data: Ok(data), cancelled } => if cancelled {
            failed(state, PullError::Cancelled)
        } else {
            pull.state matches PullState::GetBlob { manifest, digests, next } && state
                == (PullState::Unpack { manifest, digests, next, data })
        },
        PullEvent::Unpacked(Ok(())) => pull.state matches PullState::Unpack {
            manifest,
            digests,
            next,
            data,
        } && fetching(state, manifest, digests@, next + 1),
    }
}

/// The scope of the token that allows to pull from a repository.
pub open spec fn token_scope(repository: Seq<char>) -> Seq<char> {
    "repository:"@ + repository + ":pull"@
}

/// Writes down the scope of the token that allows to pull from a repository.
fn make_token_scope(repository: &str) -> (scope: String)
    ensures
        scope@ == token_scope(repository@),
{
    let mut scope: String = "repository:".to_owned();
    scope.append(repository);
    scope.append(":pull");
    scope
}

/// Goes on with the layer `next`, if there is one.
fn fetch_from(
    manifest: dkregistry::v2::manifest::Manifest,
    digests: Vec<String>,
    next: usize,
) -> (state: PullState)
    ensures
        fetching(state, manifest, digests@, next as int),
        state.wf(),
{
    if next < digests.len() {
        PullState::GetBlob { manifest, digests, next }
    } else {
        PullState::Finished(Ok(manifest))
    }
}

impl Pull {
    /// Takes note of what came of what was to be done, and decides what to do next.
    pub fn step(self, event: PullEvent) -> (pull: Pull)
        requires
            self.state.wf(),
            self.state.expects(event),
        ensures
            pull.image == self.image,
            pull.reference == self.reference,
            follows(self, event, pull.state),
            pull.state.wf(),
    {
        let Pull { image, reference, state } = self;
        let state = match (state, event) {
            (PullState::Connect(_), PullEvent::Connected(Ok(()))) => {
                PullState::CheckAuth { again: false }
            },
            (PullState::Connect(_), PullEvent::Connected(Err(err))) => {
                PullState::Finished(Err(PullError::Client(err)))
            },
            (PullState::CheckAuth { again }, PullEvent::AuthChecked(Ok(logged_in))) => {
                if logged_in {
                    PullState::FindManifest
                } else if again {
                    PullState::Finished(Err(PullError::LoginFailed))
                } else {
                    PullState::Authenticate { scope: make_token_scope(reference.repository.as_str()) }
                }
            },
            (PullState::CheckAuth { again }, PullEvent::AuthChecked(Err(err))) => {
                PullState::Finished(Err(PullError::Client(err)))
            },
            (PullState::Authenticate { scope }, PullEvent::Authenticated(Ok(()))) => {
                PullState::CheckAuth { again: true }
            },
            (PullState::Authenticate { scope }, PullEvent::Authenticated(Err(err))) => {
                PullState::Finished(Err(PullError::Client(err)))
            },
            (PullState::FindManifest, PullEvent::ManifestFound(Ok(found))) => {
                // this check is used to report missing image nicer
                if found {
                    PullState::CreateDestination
                } else {
                    PullState::Finished(Err(PullError::ImageNotExists(image.clone())))
                }
            },
            (PullState::FindManifest, PullEvent::ManifestFound(Err(err))) => {
                PullState::Finished(Err(PullError::Client(err)))
            },
            (PullState::CreateDestination, PullEvent::DestinationCreated(Ok(()))) => {
                PullState::GetManifest
            },
            (PullState::CreateDestination, PullEvent::DestinationCreated(Err(err))) => {
                PullState::Finished(Err(PullError::CreateDest(err)))
            },
            (PullState::GetManifest, PullEvent::ManifestFetched(Ok(manifest))) => {
                PullState::ListLayers(manifest)
            },
            (PullState::GetManifest, PullEvent::ManifestFetched(Err(err))) => {
                PullState::Finished(Err(PullError::Client(err)))
            },
            (PullState::ListLayers(manifest), PullEvent::LayersListed(Ok(digests))) => {
                fetch_from(manifest, digests, 0)
            },
            (PullState::ListLayers(manifest), PullEvent::LayersListed(Err(err))) => {
                PullState::Finished(Err(PullError::Client(err)))
            },
            (
                PullState::GetBlob { manifest, digests, next },
                PullEvent::BlobFetched { data: Ok(data), cancelled },
            ) => {
                if cancelled {
                    PullState::Finished(Err(PullError::Cancelled))
                } else {
                    PullState::Unpack { manifest, digests, next, data }
                }
            },
            (
                PullState::GetBlob { manifest, digests, next },
                PullEvent::BlobFetched { data: Err(err), cancelled },
            ) => PullState::Finished(Err(PullError::Client(err))),
            (
                PullState::Unpack { manifest, digests, next, data },
                PullEvent::Unpacked(Ok(())),
            ) => fetch_from(manifest, digests, next + 1),
            (
                PullState::Unpack { manifest, digests, next, data },
                PullEvent::Unpacked(Err(err)),
            ) => PullState::Finished(Err(PullError::Unpack(err))),
            (state, _) => state,
        };
        Pull { image, reference, state }
    }
}

/// The user name and password in the first of the given secrets that is for the registry.
pub open spec fn found_credentials(
    secrets: Seq<secret::SecretView>,
    registry: Seq<char>,
) -> (Option<Seq<char>>, Option<Seq<char>>)
    decreases secrets.len(),
{
    if secrets.len() == 0 {
        (None, None)
    } else if secrets.first().registry == registry {
        (secrets.first().username, secrets.first().password)
    } else {
        found_credentials(secrets.drop_first(), registry)
    }
}

/// Whether the secret at `i` is the first one for the registry.
pub open spec fn is_first_for(
    secrets: Seq<secret::SecretView>,
    registry: Seq<char>,
    i: int,
) -> bool {
    &&& 0 <= i < secrets.len()
    &&& secrets[i].registry == registry
    &&& forall|j: int| 0 <= j < i ==> (#[trigger] secrets[j]).registry != registry
}

/// If there is a secret for the registry, wherever in the list it is, the first
/// one is used. If there is none, no credentials are used.
pub proof fn law_first_secret_for_the_registry_is_used(
    secrets: Seq<secret::SecretView>,
    registry: Seq<char>,
    i: int,
)
    ensures
        is_first_for(secrets, registry, i) ==> found_credentials(secrets, registry) == (
            secrets[i].username,
            secrets[i].password,
        ),
        (forall|j: int| 0 <= j < secrets.len() ==> (#[trigger] secrets[j]).registry != registry)
            ==> found_credentials(secrets, registry) == (None::<Seq<char>>, None::<Seq<char>>),
    decreases secrets.len(),
{
    if secrets.len() > 0 && secrets[0].registry != registry {
        let rest = secrets.drop_first();
        law_first_secret_for_the_registry_is_used(rest, registry, i - 1);
        if is_first_for(secrets, registry, i) {
            assert forall|j: int| 0 <= j < i - 1 implies (#[trigger] rest[j]).registry
                != registry by {
                assert(secrets[j + 1] == rest[j]);
            }
            assert(rest[i - 1] == secrets[i]);
            assert(is_first_for(rest, registry, i - 1));
        }
        if forall|j: int| 0 <= j < secrets.len() ==> (#[trigger] secrets[j]).registry != registry {
            assert forall|j: int| 0 <= j < rest.len() implies (#[trigger] rest[j]).registry
                != registry by {
                assert(secrets[j + 1] == rest[j]);
            }
        }
    }
}

/// A pull begins by connecting to the registry of the image, with the credentials
/// in the first secret for it, or with none if there is none. TLS is required
/// unless it was disabled.
pub proof fn law_pull_begins_with_the_credentials(
    secrets: Seq<secret::SecretView>,
    image: Seq<char>,
    reference: registry::RefView,
    tls: Tls,
    pull: Pull,
    i: int,
)
    requires
        begins(secrets, image, reference, tls, pull),
    ensures
        pull.image@ == image,
        pull.reference@ == reference,
        pull.state is Connect,
        pull.state->Connect_0.registry@ == reference.registry,
        pull.state->Connect_0.insecure <==> tls == Tls::Disable,
        is_first_for(secrets, reference.registry, i) ==> {
            &&& secret::text_of(pull.state->Connect_0.username) == secrets[i].username
            &&& secret::text_of(pull.state->Connect_0.password) == secrets[i].password
        },
        (forall|j: int|
            0 <= j < secrets.len() ==> (#[trigger] secrets[j]).registry != reference.registry) ==> {
            &&& pull.state->Connect_0.username is None
            &&& pull.state->Connect_0.password is None
        },
{
    law_first_secret_for_the_registry_is_used(secrets, reference.registry, i);
}

/// Whether `pull` is a pull of the image that has yet to begin.
pub open spec fn begins(
    secrets: Seq<secret::SecretView>,
    image: Seq<char>,
    reference: registry::RefView,
    tls: Tls,
    pull: Pull,
) -> bool {
    &&& pull.image@ == image
    &&& pull.reference@ == reference
    &&& pull.state matches PullState::Connect(config) && config.registry@ == reference.registry && (
        secret::text_of(config.username),
        secret::text_of(config.password),
    ) == found_credentials(secrets, reference.registry) && config.insecure == (tls == Tls::Disable)
}

impl Puller {
    /// The secrets used to authenticate in registry.
    pub closed spec fn secrets(self) -> Seq<secret::SecretView> {
        secret::secrets_view(self.secrets@)
    }

    /// Creates new Puller.
    pub fn new() -> (puller: Puller)
        ensures
            puller.secrets() == Seq::<secret::SecretView>::empty(),
    {
        let puller = Puller { secrets: Vec::new() };
        assert(puller.secrets() =~= Seq::<secret::SecretView>::empty());
        puller
    }

    /// Replaces the secrets used to authenticate in registry.
    pub fn set_secrets(&mut self, secrets: Vec<ImagePullSecret>) -> (this: &mut Self)
        ensures
            this.secrets() == secret::secrets_view(secrets@),
            *final(self) == *final(this),
    {
        self.secrets = secrets;
        self
    }

    /// Starts pulling an image.
    ///
    /// `image` is image reference in usual format, e.g. `alpine`,
    /// `foo/bar`, `cr.com/repo1/repo2/repo3/superimage`.
    pub fn pull(&self, image: &str, pull_settings: PullSettings) -> (started: Result<
        Pull,
        PullError,
    >)
        ensures
            match registry::parsed_reference(image@) {
                Ok(reference) => started matches Ok(pull) && begins(
                    self.secrets(),
                    image@,
                    reference,
                    pull_settings.tls,
                    pull,
                ),
                Err(err) => started == Err::<Pull, PullError>(PullError::RefParse(err)),
            },
    {
        match registry::parse_reference(image) {
            Ok(reference) => Ok(self.pull_reference(image, reference, pull_settings)),
            Err(err) => Err(PullError::RefParse(err)),
        }
    }

    /// Starts pulling an image, given what its reference means.
    pub fn pull_reference(
        &self,
        image: &str,
        reference: ImageRef,
        pull_settings: PullSettings,
    ) -> (pull: Pull)
        ensures
            begins(self.secrets(), image@, reference@, pull_settings.tls, pull),
    {
        let creds = self.find_credentials(reference.registry.as_str());
        let config = RegistryConfig {
            registry: reference.registry.clone(),
            username: creds.0,
            password: creds.1,
            insecure: match pull_settings.tls {
                Tls::Enable => false,
                Tls::Disable => true,
            },
        };
        Pull { image: image.to_owned(), reference, state: PullState::Connect(config) }
    }

    /// Tries to lookup credentials for `registry`
    #[verifier::loop_isolation(false)]
    pub fn find_credentials(&self, registry: &str) -> (found: (Option<String>, Option<String>))
        ensures
            (secret::text_of(found.0), secret::text_of(found.1)) == found_credentials(
                self.secrets(),
                registry@,
            ),
            forall|i: int|
                #[trigger] is_first_for(self.secrets(), registry@, i) ==> secret::text_of(found.0)
                    == self.secrets()[i].username && secret::text_of(found.1)
                    == self.secrets()[i].password,
            (forall|i: int|
                0 <= i < self.secrets().len() ==> (#[trigger] self.secrets()[i]).registry
                    != registry@) ==> found.0 is None && found.1 is None,
    {
        proof {
            assert forall|i: int| #[trigger] is_first_for(self.secrets(), registry@, i) implies
                found_credentials(self.secrets(), registry@) == (
                self.secrets()[i].username,
                self.secrets()[i].password,
            ) by {
                law_first_secret_for_the_registry_is_used(self.secrets(), registry@, i);
            }
            law_first_secret_for_the_registry_is_used(self.secrets(), registry@, 0);
        }
        let ghost all = self.secrets();
        assert(all.skip(0) =~= all);
        for i in 0..self.secrets.len()
            invariant
                all == self.secrets(),
                found_credentials(all, registry@) == found_credentials(
                    all.skip(i as int),
                    registry@,
                ),
        {
            assert(all.skip(i as int).drop_first() =~= all.skip(i + 1));
            assert(all[i as int] == self.secrets@[i as int]@);
            let cred = &self.secrets[i];
            if text::same(cred.registry.as_str(), registry) {
                return (cred.username.clone(), cred.password.clone());
            }
        }
        (None, None)
    }
}

impl Pull {
    /// Lists the layers of the image, and decides what to do next.
    pub fn list_layers(self) -> (pull: Pull)
        requires
            self.state is ListLayers,
        ensures
            pull.image == self.image,
            pull.reference == self.reference,
            pull.state.wf(),
            match registry::manifest_layers(self.state->ListLayers_0, IMAGE_ARCHITECTURE@) {
                Ok(layers) => exists|digests: Vec<String>|
                    registry::texts(digests@) == layers && #[trigger] follows(
                        self,
                        PullEvent::LayersListed(Ok(digests)),
                        pull.state,
                    ),
                Err(err) => follows(self, PullEvent::LayersListed(Err(err)), pull.state),
            },
    {
        let listed = match &self.state {
            PullState::ListLayers(manifest) => registry::layers_digests(
                manifest,
                IMAGE_ARCHITECTURE,
            ),
            _ => Ok(Vec::new()),
        };
        self.step(PullEvent::LayersListed(listed))
    }
}

/// Everything that can come of what is done during a pull.
pub ghost struct Replies {
    pub connected: Result<(), dkregistry::errors::Error>,
    pub auth: Result<bool, dkregistry::errors::Error>,
    pub login: Result<(), dkregistry::errors::Error>,
    pub auth_again: Result<bool, dkregistry::errors::Error>,
    pub found: Result<bool, dkregistry::errors::Error>,
    pub destination: Result<(), std::io::Error>,
    pub manifest: Result<dkregistry::v2::manifest::Manifest, dkregistry::errors::Error>,
    pub layers: Result<Vec<String>, dkregistry::errors::Error>,
    /// For each layer, its data and whether the pull was cancelled by then.
    pub blobs: spec_fn(int) -> (Result<Vec<u8>, dkregistry::errors::Error>, bool),
    /// For each layer, what came of unpacking it.
    pub unpacked: spec_fn(int) -> Result<(), dkregistry::render::RenderError>,
}

/// What comes of what is to be done.
pub open spec fn reply(state: PullState, replies: Replies) -> PullEvent {
    match state {
        PullState::Connect(_) => PullEvent::Connected(replies.connected),
        PullState::CheckAuth { again } => PullEvent::AuthChecked(
            if again {
                replies.auth_again
            } else {
                replies.auth
            },
        ),
        PullState::Authenticate { scope } => PullEvent::Authenticated(replies.login),
        PullState::FindManifest => PullEvent::ManifestFound(replies.found),
        PullState::CreateDestination => PullEvent::DestinationCreated(replies.destination),
        PullState::GetManifest => PullEvent::ManifestFetched(replies.manifest),
        PullState::ListLayers(_) => PullEvent::LayersListed(replies.layers),
        PullState::GetBlob { manifest, digests, next } => PullEvent::BlobFetched {
            data: (replies.blobs)(next as int).0,
            cancelled: (replies.blobs)(next as int).1,
        },
        PullState::Unpack { manifest, digests, next, data } => PullEvent::Unpacked(
            (replies.unpacked)(next as int),
        ),
        PullState::Finished(_) => arbitrary(),
    }
}

/// Why the first layer fails that does, if one of the layers `from` to `count` does.
pub open spec fn layer_failure(replies: Replies, from: int, count: int) -> Option<PullError>
    decreases count - from,
{
    if from >= count {
        None
    } else if (replies.blobs)(from).0 is Err {
        Some(PullError::Client((replies.blobs)(from).0->Err_0))
    } else if (replies.blobs)(from).1 {
        Some(PullError::Cancelled)
    } else if (replies.unpacked)(from) is Err {
        Some(PullError::Unpack((replies.unpacked)(from)->Err_0))
    } else {
        layer_failure(replies, from + 1, count)
    }
}

/// Why the client does not get access to the registry, if it does not.
pub open spec fn login_failure(replies: Replies) -> Option<PullError> {
    if replies.login is Err {
        Some(PullError::Client(replies.login->Err_0))
    } else if replies.auth_again is Err {
        Some(PullError::Client(replies.auth_again->Err_0))
    } else if !replies.auth_again->Ok_0 {
        Some(PullError::LoginFailed)
    } else {
        None
    }
}

/// Why no client gets to the image, if none does.
pub open spec fn access_failure(replies: Replies) -> Option<PullError> {
    if replies.auth is Err {
        Some(PullError::Client(replies.auth->Err_0))
    } else if !replies.auth->Ok_0 {
        login_failure(replies)
    } else {
        None
    }
}

/// Why the manifest is not fetched, if it is not.
pub open spec fn manifest_failure(image: String, replies: Replies) -> Option<PullError> {
    if replies.found is Err {
        Some(PullError::Client(replies.found->Err_0))
    } else if !replies.found->Ok_0 {
        Some(PullError::ImageNotExists(image))
    } else if replies.destination is Err {
        Some(PullError::CreateDest(replies.destination->Err_0))
    } else if replies.manifest is Err {
        Some(PullError::Client(replies.manifest->Err_0))
    } else {
        None
    }
}

/// What the layers of a manifest come to.
pub open spec fn layers_outcome(
    manifest: dkregistry::v2::manifest::Manifest,
    replies: Replies,
) -> Result<dkregistry::v2::manifest::Manifest, PullError> {
    if replies.layers is Err {
        Err(PullError::Client(replies.layers->Err_0))
    } else {
        match layer_failure(replies, 0, replies.layers->Ok_0@.len() as int) {
            Some(error) => Err(error),
            None => Ok(manifest),
        }
    }
}

/// What a pull comes to: the first thing that goes wrong, or else the manifest.
pub open spec fn pull_outcome(image: String, replies: Replies) -> Result<
    dkregistry::v2::manifest::Manifest,
    PullError,
> {
    if replies.connected is Err {
        Err(PullError::Client(replies.connected->Err_0))
    } else if access_failure(replies) is Some {
        Err(access_failure(replies)->0)
    } else if manifest_failure(image, replies) is Some {
        Err(manifest_failure(image, replies)->0)
    } else {
        layers_outcome(replies.manifest->Ok_0, replies)
    }
}

/// What a pull that has come as far as `pull` comes to.
spec fn outcome_from(pull: Pull, replies: Replies) -> Result<
    dkregistry::v2::manifest::Manifest,
    PullError,
> {
    let after_access = match manifest_failure(pull.image, replies) {
        Some(error) => Err(error),
        None => layers_outcome(replies.manifest->Ok_0, replies),
    };
    let after_login = |failure: Option<PullError>|
        match failure {
            Some(error) => Err(error),
            None => after_access,
        };
    let layers_from = |manifest: dkregistry::v2::manifest::Manifest, from: int, count: int|
        match layer_failure(replies, from, count) {
            Some(error) => Err(error),
            None => Ok(manifest),
        };
    match pull.state {
        PullState::Connect(_) => pull_outcome(pull.image, replies),
        PullState::CheckAuth { again: false } => after_login(access_failure(replies)),
        PullState::Authenticate { scope } => after_login(login_failure(replies)),
        PullState::CheckAuth { again: true } => after_login(
            login_failure(Replies { login: Ok(()), ..replies }),
        ),
        PullState::FindManifest => after_access,
        PullState::CreateDestination => match manifest_failure(
            pull.image,
            Replies { found: Ok(true), ..replies },
        ) {
            Some(error) => Err(error),
            None => layers_outcome(replies.manifest->Ok_0, replies),
        },
        PullState::GetManifest => match replies.manifest {
            Ok(manifest) => layers_outcome(manifest, replies),
            Err(err) => Err(PullError::Client(err)),
        },
        PullState::ListLayers(manifest) => layers_outcome(manifest, replies),
        PullState::GetBlob { manifest, digests, next } => layers_from(
            manifest,
            next as int,
            digests@.len() as int,
        ),
        PullState::Unpack { manifest, digests, next, data } => match (replies.unpacked)(
            next as int,
        ) {
            Ok(()) => layers_from(manifest, next + 1, digests@.len() as int),
            Err(err) => Err(PullError::Unpack(err)),
        },
        PullState::Finished(outcome) => outcome,
    }
}

/// Whether `pulls` are what becomes of a pull, step by step, until it is over.
pub open spec fn is_run(pulls: Seq<Pull>, replies: Replies) -> bool {
    &&& pulls.len() > 0
    &&& pulls.last().state is Finished
    &&& forall|i: int|
        0 <= i < pulls.len() - 1 ==> !((#[trigger] pulls[i]).state is Finished)
            && pulls[i].state.wf() && pulls[i + 1].image == pulls[i].image && pulls[i
            + 1].reference == pulls[i].reference && follows(
            pulls[i],
            reply(pulls[i].state, replies),
            pulls[i + 1].state,
        )
}

proof fn lemma_step_keeps_outcome(pull: Pull, next: Pull, replies: Replies)
    requires
        pull.state.wf(),
        !(pull.state is Finished),
        next.image == pull.image,
        next.reference == pull.reference,
        follows(pull, reply(pull.state, replies), next.state),
    ensures
        outcome_from(next, replies) == outcome_from(pull, replies),
{
}

proof fn lemma_run_outcome(pulls: Seq<Pull>, replies: Replies, i: int)
    requires
        is_run(pulls, replies),
        0 <= i < pulls.len(),
    ensures
        pulls.last().state == PullState::Finished(outcome_from(pulls[i], replies)),
    decreases pulls.len() - i,
{
    if i < pulls.len() - 1 {
        lemma_step_keeps_outcome(pulls[i], pulls[i + 1], replies);
        lemma_run_outcome(pulls, replies, i + 1);
    }
}

/// A pull that is stepped to its end comes to the first thing that went wrong on
/// the way, and to the manifest if nothing did: then every layer was downloaded
/// and unpacked in turn, and the pull was not cancelled.
pub proof fn law_pull_ends_with_first_failure(pulls: Seq<Pull>, replies: Replies)
    requires
        is_run(pulls, replies),
        pulls.first().state is Connect,
    ensures
        pulls.last().state == PullState::Finished(pull_outcome(pulls.first().image, replies)),
{
    lemma_run_outcome(pulls, replies, 0);
}

/// Whether the layers are listed that the manifest has for `IMAGE_ARCHITECTURE`,
/// as [`Pull::list_layers`] does.
pub open spec fn lists_own_layers(replies: Replies) -> bool {
    replies.manifest matches Ok(manifest) ==> match registry::manifest_layers(
        manifest,
        IMAGE_ARCHITECTURE@,
    ) {
        Ok(layers) => replies.layers matches Ok(digests) && registry::texts(digests@) == layers,
        Err(err) => replies.layers == Err::<Vec<String>, dkregistry::errors::Error>(err),
    }
}

/// What a pull comes to whose layers are those of its manifest, once the manifest
/// was fetched.
pub open spec fn own_layers_outcome(
    manifest: dkregistry::v2::manifest::Manifest,
    replies: Replies,
) -> Result<dkregistry::v2::manifest::Manifest, PullError> {
    match registry::manifest_layers(manifest, IMAGE_ARCHITECTURE@) {
        Ok(layers) => match layer_failure(replies, 0, layers.len() as int) {
            Some(error) => Err(error),
            None => Ok(manifest),
        },
        Err(err) => Err(PullError::Client(err)),
    }
}

/// Whether a pull in this state downloads and unpacks the layers of the manifest
/// that was fetched.
pub open spec fn has_own_layers(state: PullState, replies: Replies) -> bool {
    match state {
        PullState::ListLayers(m) => replies.manifest == Ok::<_, dkregistry::errors::Error>(m),
        PullState::GetBlob { manifest: m, digests: d, next: n } => {
            &&& replies.manifest == Ok::<_, dkregistry::errors::Error>(m)
            &&& registry::manifest_layers(m, IMAGE_ARCHITECTURE@) == Ok::<
                _,
                dkregistry::errors::Error,
            >(registry::texts(d@))
        },
        PullState::Unpack { manifest: m, digests: d, next: n, data } => {
            &&& replies.manifest == Ok::<_, dkregistry::errors::Error>(m)
            &&& registry::manifest_layers(m, IMAGE_ARCHITECTURE@) == Ok::<
                _,
                dkregistry::errors::Error,
            >(registry::texts(d@))
            &&& (replies.blobs)(n as int).0 == Ok::<_, dkregistry::errors::Error>(data)
        },
        _ => true,
    }
}

proof fn lemma_run_has_own_layers(pulls: Seq<Pull>, replies: Replies, i: int)
    requires
        is_run(pulls, replies),
        pulls.first().state is Connect,
        lists_own_layers(replies),
        0 <= i < pulls.len(),
    ensures
        has_own_layers(pulls[i].state, replies),
    decreases i,
{
    if i > 0 {
        lemma_run_has_own_layers(pulls, replies, i - 1);
        let before = pulls[i - 1];
        assert(follows(before, reply(before.state, replies), pulls[i - 1 + 1].state));
        if let PullState::ListLayers(m) = before.state {
            assert(pulls[i].state matches PullState::GetBlob { manifest, digests, next }
                ==> registry::texts(digests@) =~= registry::texts(replies.layers->Ok_0@));
        }
        if let PullState::Unpack { manifest: m, digests: d, next: n, data } = before.state {
            assert(pulls[i].state matches PullState::GetBlob { manifest, digests, next }
                ==> registry::texts(digests@) =~= registry::texts(d@));
        }
    }
}

/// A pull downloads and unpacks the layers that its manifest has for
/// `IMAGE_ARCHITECTURE`, and no others. It succeeds exactly if all of them are
/// downloaded and unpacked, without being cancelled, after everything before went
/// well.
pub proof fn law_pull_fetches_the_layers_of_its_manifest(
    pulls: Seq<Pull>,
    replies: Replies,
    i: int,
)
    requires
        is_run(pulls, replies),
        pulls.first().state is Connect,
        lists_own_layers(replies),
        0 <= i < pulls.len(),
    ensures
        has_own_layers(pulls[i].state, replies),
        pulls.last().state == PullState::Finished(
            if replies.connected is Err {
                Err(PullError::Client(replies.connected->Err_0))
            } else if access_failure(replies) is Some {
                Err(access_failure(replies)->0)
            } else if manifest_failure(pulls.first().image, replies) is Some {
                Err(manifest_failure(pulls.first().image, replies)->0)
            } else {
                own_layers_outcome(replies.manifest->Ok_0, replies)
            },
        ),
{
    lemma_run_has_own_layers(pulls, replies, i);
    law_pull_ends_with_first_failure(pulls, replies);
}

/// How much there is left to do before the layers are known.
pub open spec fn stages_left(state: PullState) -> nat {
    match state {
        PullState::Connect(_) => 9,
        PullState::CheckAuth { again: false } => 8,
        PullState::Authenticate { scope } => 7,
        PullState::CheckAuth { again: true } => 6,
        PullState::FindManifest => 5,
        PullState::CreateDestination => 4,
        PullState::GetManifest => 3,
        PullState::ListLayers(_) => 2,
        PullState::GetBlob { manifest, digests, next } => 1,
        PullState::Unpack { manifest, digests, next, data } => 1,
        PullState::Finished(_) => 0,
    }
}

/// How much there is left to do once the layers are known.
pub open spec fn layer_work_left(state: PullState) -> int {
    match state {
        PullState::GetBlob { manifest, digests, next } => 2 * (digests@.len() - next),
        PullState::Unpack { manifest, digests, next, data } => 2 * (digests@.len() - next) - 1,
        _ => 0,
    }
}

/// Every pull ends: each step leaves less to do.
pub proof fn law_every_step_is_progress(pull: Pull, event: PullEvent, state: PullState)
    requires
        pull.state.wf(),
        pull.state.expects(event),
        follows(pull, event, state),
    ensures
        layer_work_left(state) >= 0,
        stages_left(state) < stages_left(pull.state) || (stages_left(state) == stages_left(
            pull.state,
        ) && layer_work_left(state) < layer_work_left(pull.state)),
{
}

/// A login is tried exactly if the registry does not know the client, and for a
/// token that allows to pull from the repository of the image. If the client is still
/// unknown after that, the pull fails.
pub proof fn law_login_is_tried_once(pull: Pull, state: PullState, again: bool, known: bool)
    requires
        pull.state == (PullState::CheckAuth { again }),
        follows(pull, PullEvent::AuthChecked(Ok(known)), state),
    ensures
        known ==> state == PullState::FindManifest,
        !known && again ==> state == PullState::Finished(Err(PullError::LoginFailed)),
        !known && !again ==> state is Authenticate && state->scope@ == "repository:"@
            + pull.reference.repository@ + ":pull"@,
{
}

/// What each error says, the image being named in full.
pub proof fn law_errors_say_what_failed(error: PullError)
    ensures
        error is Client ==> error_text(error) == "registry communication error"@,
        error is RefParse ==> error_text(error) == "invalid reference"@,
        error is LoginFailed ==> error_text(error) == "login failure: obtained token is invalid"@,
        error matches PullError::ImageNotExists(image) ==> error_text(error) == "image "@ + image@
            + " does not exist"@,
        error is Unpack ==> error_text(error) == "unpack failed"@,
        error is Cancelled ==> error_text(error) == "operation was cancelled"@,
        error is CreateDest ==> error_text(error) == "failed to create destination dir"@,
{
}

/// Each layer is downloaded, then unpacked as it was downloaded, then the next one
/// is due. The pull is over only after the last one.
pub proof fn law_layers_are_done_one_by_one(
    pull: Pull,
    state: PullState,
    manifest: dkregistry::v2::manifest::Manifest,
    digests: Vec<String>,
    next: usize,
    data: Vec<u8>,
)
    ensures
        pull.state == (PullState::GetBlob { manifest, digests, next }) && follows(
            pull,
            PullEvent::BlobFetched { data: Ok(data), cancelled: false },
            state,
        ) ==> state == (PullState::Unpack { manifest, digests, next, data }),
        pull.state == (PullState::GetBlob { manifest, digests, next }) && follows(
            pull,
            PullEvent::BlobFetched { data: Ok(data), cancelled: true },
            state,
        ) ==> state == PullState::Finished(Err(PullError::Cancelled)),
        pull.state == (PullState::Unpack { manifest, digests, next, data }) && follows(
            pull,
            PullEvent::Unpacked(Ok(())),
            state,
        ) ==> if next + 1 < digests@.len() {
            state matches PullState::GetBlob { manifest: m, digests: d, next: n } && m == manifest
                && d@ == digests@ && n == next + 1
        } else {
            state == PullState::Finished(Ok(manifest))
        },
        pull.state == PullState::ListLayers(manifest) && follows(
            pull,
            PullEvent::LayersListed(Ok(digests)),
            state,
        ) ==> if digests@.len() > 0 {
            state matches PullState::GetBlob { manifest: m, digests: d, next: n } && m == manifest
                && d@ == digests@ && n == 0
        } else {
            state == PullState::Finished(Ok(manifest))
        },
{
}

/// A pull that is not over can always go on, whatever comes of what is to be done.
pub proof fn law_every_reply_is_expected(state: PullState, replies: Replies)
    requires
        !(state is Finished),
    ensures
        state.expects(reply(state, replies)),
{
}

/// Layers are fetched for the architecture `amd64`, of whatever manifest.
pub proof fn law_layers_are_those_for_amd64(manifest: dkregistry::v2::manifest::Manifest)
    ensures
        registry::manifest_layers(manifest, IMAGE_ARCHITECTURE@) == registry::manifest_layers(
            manifest,
            "amd64"@,
        ),
{
}

} // verus!
