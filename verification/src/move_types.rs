use crate::base_types::AccountAddress;
use crate::bytes::same_bytes;
use vstd::prelude::*;

verus! {

/// The name of a module, a struct or a field, as the bytes of its text.
pub type Identifier = Vec<u8>;

/// A Move type.
#[derive(Debug, PartialEq, Eq)]
pub enum TypeTag {
    Bool,
    U8,
    U64,
    U128,
    Address,
    Signer,
    Vector(Box<TypeTag>),
    Struct(Box<StructTag>),
    U16,
    U32,
    U256,
}

/// A Move struct type with its type arguments.
#[derive(Debug, PartialEq, Eq)]
pub struct StructTag {
    pub address: AccountAddress,
    pub module: Identifier,
    pub name: Identifier,
    pub type_params: Vec<TypeTag>,
}

/// The type of a Move object. The types that most objects have are kept in a short form.
#[derive(Debug, PartialEq, Eq)]
pub enum MoveObjectType {
    /// A type that is none of the other variants.
    Other(StructTag),
    /// A SUI coin.
    GasCoin,
    /// A stake of SUI with a validator.
    StakedSui,
    /// A coin of another currency.
    Coin(TypeTag),
}

/// The name of a module: the address of its package and its own name.
#[derive(Debug, PartialEq, Eq)]
pub struct ModuleId {
    pub address: AccountAddress,
    pub name: Identifier,
}

/// Whether two type tags stand for the same type.
pub open spec fn same_type(a: TypeTag, b: TypeTag) -> bool
    decreases a,
{
    match (a, b) {
        (TypeTag::Bool, TypeTag::Bool) => true,
        (TypeTag::U8, TypeTag::U8) => true,
        (TypeTag::U64, TypeTag::U64) => true,
        (TypeTag::U128, TypeTag::U128) => true,
        (TypeTag::Address, TypeTag::Address) => true,
        (TypeTag::Signer, TypeTag::Signer) => true,
        (TypeTag::Vector(x), TypeTag::Vector(y)) => same_type(*x, *y),
        (TypeTag::Struct(x), TypeTag::Struct(y)) => same_struct(*x, *y),
        (TypeTag::U16, TypeTag::U16) => true,
        (TypeTag::U32, TypeTag::U32) => true,
        (TypeTag::U256, TypeTag::U256) => true,
        _ => false,
    }
}

/// Whether two struct tags stand for the same type.
pub open spec fn same_struct(a: StructTag, b: StructTag) -> bool
    decreases a,
{
    &&& a.address == b.address
    &&& a.module@ == b.module@
    &&& a.name@ == b.name@
    &&& a.type_params@.len() == b.type_params@.len()
    &&& forall|i: int|
        0 <= i < a.type_params@.len() ==> same_type(
            #[trigger] a.type_params@[i],
            b.type_params@[i],
        )
}

impl TypeTag {
    /// Whether the two tags stand for the same type.
    pub fn is_same(&self, other: &TypeTag) -> (same: bool)
        ensures
            same == same_type(*self, *other),
        decreases *self,
    {
        match (self, other) {
            (TypeTag::Bool, TypeTag::Bool) => true,
            (TypeTag::U8, TypeTag::U8) => true,
            (TypeTag::U64, TypeTag::U64) => true,
            (TypeTag::U128, TypeTag::U128) => true,
            (TypeTag::Address, TypeTag::Address) => true,
            (TypeTag::Signer, TypeTag::Signer) => true,
            (TypeTag::Vector(x), TypeTag::Vector(y)) => x.is_same(&**y),
            (TypeTag::Struct(x), TypeTag::Struct(y)) => x.is_same(&**y),
            (TypeTag::U16, TypeTag::U16) => true,
            (TypeTag::U32, TypeTag::U32) => true,
            (TypeTag::U256, TypeTag::U256) => true,
            _ => false,
        }
    }
}

impl StructTag {
    /// Whether the two tags stand for the same type.
    pub fn is_same(&self, other: &StructTag) -> (same: bool)
        ensures
            same == same_struct(*self, *other),
        decreases *self,
    {
        if self.address.0 != other.address.0 || self.address.1 != other.address.1 || !same_bytes(
            &self.module,
            &other.module,
        ) || !same_bytes(&self.name, &other.name) || self.type_params.len()
            != other.type_params.len() {
            return false;
        }
        let mut i: usize = 0;
        while i < self.type_params.len()
            invariant
                i <= self.type_params.len(),
                self.type_params.len() == other.type_params.len(),
                forall|j: int|
                    0 <= j < i ==> same_type(
                        #[trigger] self.type_params@[j],
                        other.type_params@[j],
                    ),
            decreases self.type_params.len() - i,
        {
            if !self.type_params[i].is_same(&other.type_params[i]) {
                return false;
            }
            i = i + 1;
        }
        true
    }
}

/// The text `coin`.
pub open spec fn text_coin() -> Seq<u8> {
    seq![99u8, 111u8, 105u8, 110u8]
}

/// The text `Coin`.
pub open spec fn text_coin_struct() -> Seq<u8> {
    seq![67u8, 111u8, 105u8, 110u8]
}

/// The text `sui`.
pub open spec fn text_sui() -> Seq<u8> {
    seq![115u8, 117u8, 105u8]
}

/// The text `SUI`.
pub open spec fn text_sui_struct() -> Seq<u8> {
    seq![83u8, 85u8, 73u8]
}

/// The text `staking_pool`.
pub open spec fn text_staking_pool() -> Seq<u8> {
    seq![
        115u8, 116u8, 97u8, 107u8, 105u8, 110u8, 103u8, 95u8, 112u8, 111u8, 111u8, 108u8,
    ]
}

/// The text `StakedSui`.
pub open spec fn text_staked_sui() -> Seq<u8> {
    seq![83u8, 116u8, 97u8, 107u8, 101u8, 100u8, 83u8, 117u8, 105u8]
}

/// Whether a struct tag is `0x2::sui::SUI`.
pub open spec fn is_sui_currency(s: StructTag) -> bool {
    &&& s.address == (0u128, 2u128)
    &&& s.module@ == text_sui()
    &&& s.name@ == text_sui_struct()
    &&& s.type_params@.len() == 0
}

/// Whether a struct tag is `0x2::coin::Coin` of some currency.
pub open spec fn is_coin_struct(s: StructTag) -> bool {
    &&& s.address == (0u128, 2u128)
    &&& s.module@ == text_coin()
    &&& s.name@ == text_coin_struct()
    &&& s.type_params@.len() == 1
}

/// Whether a struct tag is `0x3::staking_pool::StakedSui`.
pub open spec fn is_staked_sui_struct(s: StructTag) -> bool {
    &&& s.address == (0u128, 3u128)
    &&& s.module@ == text_staking_pool()
    &&& s.name@ == text_staked_sui()
    &&& s.type_params@.len() == 0
}

/// Whether an object of type `t` is an object of the struct type `s`.
pub open spec fn object_is_of_type(t: MoveObjectType, s: StructTag) -> bool {
    match t {
        MoveObjectType::Other(other) => same_struct(other, s),
        MoveObjectType::GasCoin => {
            &&& is_coin_struct(s)
            &&& s.type_params@[0] matches TypeTag::Struct(currency)
            &&& is_sui_currency(*currency)
        },
        MoveObjectType::StakedSui => is_staked_sui_struct(s),
        MoveObjectType::Coin(currency) => is_coin_struct(s) && same_type(
            currency,
            s.type_params@[0],
        ),
    }
}

fn is_named(tag: &StructTag, address: u128, module: &Vec<u8>, name: &Vec<u8>) -> (named: bool)
    ensures
        named == (tag.address == (0u128, address) && tag.module@ == module@ && tag.name@ == name@),
{
    tag.address.0 == 0 && tag.address.1 == address && same_bytes(&tag.module, module)
        && same_bytes(&tag.name, name)
}

impl MoveObjectType {
    /// Whether this is the type of a SUI coin.
    pub fn is_gas_coin(&self) -> (gas: bool)
        ensures
            gas == (*self is GasCoin),
    {
        match self {
            MoveObjectType::GasCoin => true,
            _ => false,
        }
    }

    /// Whether this is the struct type `s`.
    pub fn is(&self, s: &StructTag) -> (same: bool)
        ensures
            same == object_is_of_type(*self, *s),
    {
        match self {
            MoveObjectType::Other(other) => other.is_same(s),
            MoveObjectType::GasCoin => {
                if !is_named(s, 2, &vec![99, 111, 105, 110], &vec![67, 111, 105, 110])
                    || s.type_params.len() != 1 {
                    return false;
                }
                match &s.type_params[0] {
                    TypeTag::Struct(currency) => is_named(
                        currency,
                        2,
                        &vec![115, 117, 105],
                        &vec![83, 85, 73],
                    ) && currency.type_params.len() == 0,
                    _ => false,
                }
            },
            MoveObjectType::StakedSui => is_named(
                s,
                3,
                &vec![115, 116, 97, 107, 105, 110, 103, 95, 112, 111, 111, 108],
                &vec![83, 116, 97, 107, 101, 100, 83, 117, 105],
            ) && s.type_params.len() == 0,
            MoveObjectType::Coin(currency) => is_named(
                s,
                2,
                &vec![99, 111, 105, 110],
                &vec![67, 111, 105, 110],
            ) && s.type_params.len() == 1 && currency.is_same(&s.type_params[0]),
        }
    }
}

/// The number of bytes of the variable-length form of `n`, seven bits to a byte.
pub open spec fn uleb_size(n: nat) -> nat
    decreases n,
{
    if n < 128 {
        1
    } else {
        1 + uleb_size(n / 128)
    }
}

/// The number of bytes of a serialized type tag.
pub open spec fn type_size(t: TypeTag) -> nat
    decreases t, 0nat,
{
    match t {
        TypeTag::Vector(x) => 1 + type_size(*x),
        TypeTag::Struct(x) => 1 + struct_size(*x),
        _ => 1,
    }
}

/// The number of bytes of a serialized struct tag: the address, the two names and the type
/// arguments, each list with its length in front.
pub open spec fn struct_size(s: StructTag) -> nat
    decreases s, s.type_params@.len() + 1,
{
    32 + uleb_size(s.module@.len()) + s.module@.len() + uleb_size(s.name@.len()) + s.name@.len()
        + uleb_size(s.type_params@.len()) + params_size(s, s.type_params@.len())
}

/// The number of bytes of the first `n` type arguments of a struct tag.
pub open spec fn params_size(s: StructTag, n: nat) -> nat
    decreases s, n,
    when n <= s.type_params@.len()
{
    if n == 0 {
        0
    } else {
        params_size(s, (n - 1) as nat) + type_size(s.type_params@[n - 1])
    }
}

/// The number of bytes of a serialized object type.
pub open spec fn object_type_size(t: MoveObjectType) -> nat {
    match t {
        MoveObjectType::Other(s) => 1 + struct_size(s),
        MoveObjectType::GasCoin => 1,
        MoveObjectType::StakedSui => 1,
        MoveObjectType::Coin(c) => 1 + type_size(c),
    }
}

proof fn lemma_params_grow(s: StructTag, a: nat, b: nat)
    requires
        a <= b <= s.type_params@.len(),
    ensures
        params_size(s, a) <= params_size(s, b),
    decreases b,
{
    if a < b {
        lemma_params_grow(s, a, (b - 1) as nat);
    }
}

fn uleb_size_of(n: usize) -> (size: usize)
    ensures
        size == uleb_size(n as nat),
        size <= 10,
{
    let mut size: usize = 1;
    let mut rest: usize = n;
    proof {
        reveal_with_fuel(uleb_size, 2);
        lemma_uleb_bound(n as nat, 10);
        lemma_uleb_limit();
    }
    while rest >= 128
        invariant
            size >= 1,
            size + uleb_size(rest as nat) == uleb_size(n as nat) + 1,
            uleb_size(n as nat) <= 10,
        decreases rest,
    {
        rest = rest / 128;
        size = size + 1;
    }
    size
}

spec fn uleb_limit(k: nat) -> nat
    decreases k,
{
    if k == 0 {
        1
    } else {
        128 * uleb_limit((k - 1) as nat)
    }
}

proof fn lemma_uleb_limit()
    ensures
        uleb_limit(10) == 0x40_0000_0000_0000_0000,
{
    reveal_with_fuel(uleb_limit, 11);
}

proof fn lemma_uleb_bound(n: nat, k: nat)
    requires
        k > 0,
    ensures
        n < uleb_limit(k) ==> uleb_size(n) <= k,
    decreases k,
{
    if n >= 128 && n < uleb_limit(k) {
        if k == 1 {
            assert(uleb_limit(1) == 128 * uleb_limit(0));
        } else {
            lemma_uleb_bound(n / 128, (k - 1) as nat);
        }
    }
}

impl TypeTag {
    /// The number of bytes of the serialized tag.
    pub fn serialized_size(&self) -> (size: usize)
        requires
            type_size(*self) <= usize::MAX,
        ensures
            size == type_size(*self),
        decreases *self,
    {
        match self {
            TypeTag::Vector(x) => 1 + x.serialized_size(),
            TypeTag::Struct(x) => 1 + x.serialized_size(),
            _ => 1,
        }
    }
}

impl StructTag {
    /// The number of bytes of the serialized tag.
    pub fn serialized_size(&self) -> (size: usize)
        requires
            struct_size(*self) <= usize::MAX,
        ensures
            size == struct_size(*self),
        decreases *self,
    {
        let mut size: usize = 0;
        let mut i: usize = 0;
        while i < self.type_params.len()
            invariant
                i <= self.type_params.len(),
                size == params_size(*self, i as nat),
                struct_size(*self) <= usize::MAX,
            decreases self.type_params.len() - i,
        {
            proof {
                lemma_params_grow(*self, (i + 1) as nat, self.type_params@.len());
            }
            size = size + self.type_params[i].serialized_size();
            i = i + 1;
        }
        size + uleb_size_of(self.type_params.len()) + uleb_size_of(self.module.len())
            + self.module.len() + uleb_size_of(self.name.len()) + self.name.len() + 32
    }
}

impl MoveObjectType {
    /// The number of bytes of the serialized type.
    pub fn serialized_size(&self) -> (size: usize)
        requires
            object_type_size(*self) <= usize::MAX,
        ensures
            size == object_type_size(*self),
    {
        match self {
            MoveObjectType::Other(s) => 1 + s.serialized_size(),
            MoveObjectType::GasCoin => 1,
            MoveObjectType::StakedSui => 1,
            MoveObjectType::Coin(c) => 1 + c.serialized_size(),
        }
    }
}

} // verus!
