use vstd::prelude::*;

verus! {

/// The identity of an init: a plain `u64`.
#[derive(Debug, Clone, Copy, PartialEq, Eq, Hash, Structural)]
pub struct InitId(u64);

impl View for InitId {
    type V = u64;

    closed spec fn view(&self) -> u64 {
        self.0
    }
}

/// The numbers of a sequence of ids.
pub open spec fn id_values(ids: Seq<InitId>) -> Seq<u64> {
    ids.map_values(|i: InitId| i@)
}

/// Two ids are equal exactly when they hold the same number.
pub proof fn lemma_init_id_view_eq(a: InitId, b: InitId)
    ensures
        (a@ == b@) <==> (a == b),
{
}

/// Names the integer that `godot::obj::InstanceId::to_i64` returns for an instance id.
pub uninterp spec fn godot_instance_id_value(id: godot::obj::InstanceId) -> i64;

#[verifier::external_type_specification]
#[verifier::external_body]
pub struct ExInstanceId(godot::obj::InstanceId);

/// Calls `godot::obj::InstanceId::to_i64`. Trusted: the result is the integer the
/// id was built from, which the name `godot_instance_id_value` stands for; an
/// `InstanceId` holds a `NonZeroU64`, so it is never zero.
#[verifier::external_body]
fn instance_id_to_i64(instance_id: godot::obj::InstanceId) -> (r: i64)
    ensures
        r == godot_instance_id_value(instance_id),
        r != 0,
{
    instance_id.to_i64()
}

/// Calls `uuid::Uuid::new_v4` and reads the UUID as a big-endian `u128`.
/// Trusted: the bits are random, except that `new_v4` forces the version nibble
/// (bits 76..80) to 4 and the variant bits (62..64) to `0b10`. It panics only
/// where the system's random source fails.
#[verifier::external_body]
fn uuid_v4_bits() -> (r: u128)
    ensures
        r & 0xF000_C000_0000_0000_0000u128 == 0x4000_8000_0000_0000_0000u128,
{
    uuid::Uuid::new_v4().as_u128()
}

impl InitId {
    pub fn new(id: u64) -> (r: Self)
        ensures
            r@ == id,
    {
        InitId(id)
    }

    pub fn get_id(&self) -> (r: u64)
        ensures
            r == self@,
    {
        self.0
    }

    /// Keeps the low 64 bits of a UUID read as a big-endian `u128`.
    pub fn from_uuid_bits(bits: u128) -> (r: Self)
        ensures
            r@ == bits as u64,
    {
        InitId(bits as u64)
    }

    /// A fresh id from a version-4 UUID. Such an id always has its top bit set
    /// and the next one clear, so it never equals an id below `2^63`.
    pub fn random() -> (r: Self)
        ensures
            0x8000_0000_0000_0000u64 <= r@ < 0xC000_0000_0000_0000u64,
    {
        let bits = uuid_v4_bits();
        let r = Self::from_uuid_bits(bits);
        assert(bits & 0xF000_C000_0000_0000_0000u128 == 0x4000_8000_0000_0000_0000u128 ==>
            0x8000_0000_0000_0000u64 <= (bits as u64) && (bits as u64) < 0xC000_0000_0000_0000u64)
            by (bit_vector);
        r
    }

    /// The id of a Godot object: its instance id's integer, read as `u64`.
    pub fn from_instance_id(instance_id: godot::obj::InstanceId) -> (r: Self)
        ensures
            r@ == godot_instance_id_value(instance_id) as u64,
    {
        Self::from_instance_value(instance_id_to_i64(instance_id))
    }

    /// The id for an instance id's integer value, read as `u64`.
    pub fn from_instance_value(value: i64) -> (r: Self)
        ensures
            r@ == value as u64,
    {
        InitId(value as u64)
    }
}

impl From<godot::obj::InstanceId> for InitId {
    fn from(value: godot::obj::InstanceId) -> (r: Self)
        ensures
            r@ == godot_instance_id_value(value) as u64,
    {
        InitId::from_instance_id(value)
    }
}

impl vstd::std_specs::convert::FromSpecImpl<godot::obj::InstanceId> for InitId {
    open spec fn obeys_from_spec() -> bool {
        true
    }

    closed spec fn from_spec(v: godot::obj::InstanceId) -> Self {
        InitId(godot_instance_id_value(v) as u64)
    }
}

} // verus!
