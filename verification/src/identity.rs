//! Identities of tenants, products, devices, codecs and sessions.
use crate::error::Error;
use crate::text::{byte_len, characters, same_text, text_bytes};
use vstd::prelude::*;

verus! {

/// The most bytes that an identifier may have.
pub const MAX_IDENTIFIER_BYTES: usize = 64;

pub open spec fn identifier_char(c: char) -> bool {
    ||| 'a' <= c <= 'z'
    ||| 'A' <= c <= 'Z'
    ||| '0' <= c <= '9'
    ||| c == '-' || c == '_' || c == '.'
}

/// Identifiers are short and hold only characters that have no meaning in a topic.
pub open spec fn identifier_ok(text: Seq<char>) -> bool {
    &&& 0 < text.len()
    &&& text_bytes(text) <= MAX_IDENTIFIER_BYTES
    &&& forall|i: int| 0 <= i < text.len() ==> identifier_char(#[trigger] text[i])
}

fn check_identifier(text: &str) -> (valid: bool)
    ensures
        valid == identifier_ok(text@),
{
    if text.is_empty() || byte_len(text) > MAX_IDENTIFIER_BYTES {
        return false;
    }
    let chars = characters(text);
    let mut at: usize = 0;
    while at < chars.len()
        invariant
            at <= chars.len(),
            chars@ == text@,
            forall|i: int| 0 <= i < at ==> identifier_char(#[trigger] text@[i]),
        decreases chars.len() - at,
    {
        let c = chars[at];
        let accepted = ('a' <= c && c <= 'z') || ('A' <= c && c <= 'Z') || ('0' <= c && c <= '9')
            || c == '-' || c == '_' || c == '.';
        if !accepted {
            assert(!identifier_char(text@[at as int]));
            return false;
        }
        at = at + 1;
    }
    true
}

/// The identifier of a tenant.
#[derive(Debug, PartialEq, Eq, Hash)]
pub struct TenantId {
    text: String,
}

impl View for TenantId {
    type V = Seq<char>;

    closed spec fn view(&self) -> Seq<char> {
        self.text@
    }
}

impl TenantId {
    #[verifier::type_invariant]
    spec fn valid(self) -> bool {
        identifier_ok(self.text@)
    }

    pub fn new(text: &str) -> (result: Result<TenantId, Error>)
        ensures
            result is Ok <==> identifier_ok(text@),
            result is Ok ==> result->Ok_0@ == text@,
            result is Err ==> result->Err_0 == Error::Invalid,
    {
        if !check_identifier(text) {
            return Err(Error::Invalid);
        }
        Ok(TenantId { text: text.to_owned() })
    }

    pub fn as_str(&self) -> (text: &str)
        ensures
            text@ == self@,
            identifier_ok(self@),
    {
        proof {
            use_type_invariant(self);
        }
        self.text.as_str()
    }

    pub fn same(&self, other: &TenantId) -> (same: bool)
        ensures
            same == (self@ == other@),
    {
        same_text(self.text.as_str(), other.text.as_str())
    }
}

impl Clone for TenantId {
    fn clone(&self) -> (copy: TenantId)
        ensures
            copy@ == self@,
    {
        proof {
            use_type_invariant(self);
        }
        TenantId { text: self.text.clone() }
    }
}

/// The identifier of a product.
#[derive(Debug, PartialEq, Eq, Hash)]
pub struct ProductId {
    text: String,
}

impl View for ProductId {
    type V = Seq<char>;

    closed spec fn view(&self) -> Seq<char> {
        self.text@
    }
}

impl ProductId {
    #[verifier::type_invariant]
    spec fn valid(self) -> bool {
        identifier_ok(self.text@)
    }

    pub fn new(text: &str) -> (result: Result<ProductId, Error>)
        ensures
            result is Ok <==> identifier_ok(text@),
            result is Ok ==> result->Ok_0@ == text@,
            result is Err ==> result->Err_0 == Error::Invalid,
    {
        if !check_identifier(text) {
            return Err(Error::Invalid);
        }
        Ok(ProductId { text: text.to_owned() })
    }

    pub fn as_str(&self) -> (text: &str)
        ensures
            text@ == self@,
            identifier_ok(self@),
    {
        proof {
            use_type_invariant(self);
        }
        self.text.as_str()
    }

    pub fn same(&self, other: &ProductId) -> (same: bool)
        ensures
            same == (self@ == other@),
    {
        same_text(self.text.as_str(), other.text.as_str())
    }
}

impl Clone for ProductId {
    fn clone(&self) -> (copy: ProductId)
        ensures
            copy@ == self@,
    {
        proof {
            use_type_invariant(self);
        }
        ProductId { text: self.text.clone() }
    }
}

/// The identifier of a device.
#[derive(Debug, PartialEq, Eq, Hash)]
pub struct DeviceId {
    text: String,
}

impl View for DeviceId {
    type V = Seq<char>;

    closed spec fn view(&self) -> Seq<char> {
        self.text@
    }
}

impl DeviceId {
    #[verifier::type_invariant]
    spec fn valid(self) -> bool {
        identifier_ok(self.text@)
    }

    pub fn new(text: &str) -> (result: Result<DeviceId, Error>)
        ensures
            result is Ok <==> identifier_ok(text@),
            result is Ok ==> result->Ok_0@ == text@,
            result is Err ==> result->Err_0 == Error::Invalid,
    {
        if !check_identifier(text) {
            return Err(Error::Invalid);
        }
        Ok(DeviceId { text: text.to_owned() })
    }

    pub fn as_str(&self) -> (text: &str)
        ensures
            text@ == self@,
            identifier_ok(self@),
    {
        proof {
            use_type_invariant(self);
        }
        self.text.as_str()
    }

    pub fn same(&self, other: &DeviceId) -> (same: bool)
        ensures
            same == (self@ == other@),
    {
        same_text(self.text.as_str(), other.text.as_str())
    }
}

impl Clone for DeviceId {
    fn clone(&self) -> (copy: DeviceId)
        ensures
            copy@ == self@,
    {
        proof {
            use_type_invariant(self);
        }
        DeviceId { text: self.text.clone() }
    }
}

/// The identifier of a payload codec.
#[derive(Debug, PartialEq, Eq, Hash)]
pub struct CodecId {
    text: String,
}

impl View for CodecId {
    type V = Seq<char>;

    closed spec fn view(&self) -> Seq<char> {
        self.text@
    }
}

impl CodecId {
    #[verifier::type_invariant]
    spec fn valid(self) -> bool {
        identifier_ok(self.text@)
    }

    pub fn new(text: &str) -> (result: Result<CodecId, Error>)
        ensures
            result is Ok <==> identifier_ok(text@),
            result is Ok ==> result->Ok_0@ == text@,
            result is Err ==> result->Err_0 == Error::Invalid,
    {
        if !check_identifier(text) {
            return Err(Error::Invalid);
        }
        Ok(CodecId { text: text.to_owned() })
    }

    pub fn as_str(&self) -> (text: &str)
        ensures
            text@ == self@,
            identifier_ok(self@),
    {
        proof {
            use_type_invariant(self);
        }
        self.text.as_str()
    }

    pub fn same(&self, other: &CodecId) -> (same: bool)
        ensures
            same == (self@ == other@),
    {
        same_text(self.text.as_str(), other.text.as_str())
    }
}

impl Clone for CodecId {
    fn clone(&self) -> (copy: CodecId)
        ensures
            copy@ == self@,
    {
        proof {
            use_type_invariant(self);
        }
        CodecId { text: self.text.clone() }
    }
}

/// A device: the tenant and the product it belongs to, and its own identifier.
#[derive(Debug, PartialEq, Eq, Hash)]
pub struct DeviceKey {
    pub tenant_id: TenantId,
    pub product_id: ProductId,
    pub device_id: DeviceId,
}

pub struct DeviceView {
    pub tenant: Seq<char>,
    pub product: Seq<char>,
    pub device: Seq<char>,
}

impl View for DeviceKey {
    type V = DeviceView;

    open spec fn view(&self) -> DeviceView {
        DeviceView {
            tenant: self.tenant_id@,
            product: self.product_id@,
            device: self.device_id@,
        }
    }
}

impl DeviceKey {
    pub fn same(&self, other: &DeviceKey) -> (same: bool)
        ensures
            same == (self@ == other@),
    {
        self.tenant_id.same(&other.tenant_id) && self.product_id.same(&other.product_id)
            && self.device_id.same(&other.device_id)
    }
}

impl Clone for DeviceKey {
    fn clone(&self) -> (copy: DeviceKey)
        ensures
            copy@ == self@,
    {
        DeviceKey {
            tenant_id: self.tenant_id.clone(),
            product_id: self.product_id.clone(),
            device_id: self.device_id.clone(),
        }
    }
}

/// A session: the device it belongs to and the client identifier it was opened under.
#[derive(Debug, PartialEq, Eq, Hash)]
pub struct SessionKey {
    pub device: DeviceKey,
    pub client_id: String,
}

pub struct KeyView {
    pub device: DeviceView,
    pub client_id: Seq<char>,
}

impl View for SessionKey {
    type V = KeyView;

    open spec fn view(&self) -> KeyView {
        KeyView { device: self.device@, client_id: self.client_id@ }
    }
}

impl SessionKey {
    pub fn same(&self, other: &SessionKey) -> (same: bool)
        ensures
            same == (self@ == other@),
    {
        self.device.same(&other.device) && same_text(
            self.client_id.as_str(),
            other.client_id.as_str(),
        )
    }
}

impl Clone for SessionKey {
    fn clone(&self) -> (copy: SessionKey)
        ensures
            copy@ == self@,
    {
        SessionKey { device: self.device.clone(), client_id: self.client_id.clone() }
    }
}

pub open spec fn key_option_view(key: Option<SessionKey>) -> Option<KeyView> {
    match key {
        Some(key) => Some(key@),
        None => None,
    }
}

pub open spec fn key_ref_view(key: Option<&SessionKey>) -> Option<KeyView> {
    match key {
        Some(key) => Some(key@),
        None => None,
    }
}

pub fn clone_key_option(key: &Option<SessionKey>) -> (copy: Option<SessionKey>)
    ensures
        key_option_view(copy) == key_option_view(*key),
{
    match key {
        Some(key) => Some(key.clone()),
        None => None,
    }
}

pub fn clone_key_ref(key: Option<&SessionKey>) -> (copy: Option<SessionKey>)
    ensures
        key_option_view(copy) == key_ref_view(key),
{
    match key {
        Some(key) => Some(key.clone()),
        None => None,
    }
}

/// What a device may do.
#[derive(Clone, Copy, Debug, PartialEq, Eq, Structural)]
pub struct Permissions {
    pub publish: bool,
    pub commands: bool,
}

/// A device whose credentials were accepted.
#[derive(Debug, PartialEq, Eq)]
pub struct AuthenticatedDevice {
    pub device_key: DeviceKey,
    pub credential_version: u32,
    pub auth_generation: u64,
    pub codec_id: CodecId,
    pub codec_version: u16,
    pub permissions: Permissions,
}

impl Clone for AuthenticatedDevice {
    fn clone(&self) -> (copy: AuthenticatedDevice)
        ensures
            copy.device_key@ == self.device_key@,
            copy.credential_version == self.credential_version,
            copy.auth_generation == self.auth_generation,
            copy.codec_id@ == self.codec_id@,
            copy.codec_version == self.codec_version,
            copy.permissions == self.permissions,
    {
        AuthenticatedDevice {
            device_key: self.device_key.clone(),
            credential_version: self.credential_version,
            auth_generation: self.auth_generation,
            codec_id: self.codec_id.clone(),
            codec_version: self.codec_version,
            permissions: self.permissions,
        }
    }
}

/// Which authentications have become invalid.
#[derive(Debug, PartialEq, Eq)]
pub enum AuthInvalidation {
    Device { device: DeviceKey },
    Product { tenant_id: TenantId, product_id: ProductId },
    Tenant { tenant_id: TenantId },
    CredentialVersion { version: u32 },
    AuthGeneration { generation: u64 },
    All,
}

} // verus!
