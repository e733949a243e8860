//! The parameters of Curve1024: `y^2 = x^3 + 41` over a 1024-bit prime field,
//! with a subgroup of 512-bit prime order `r`.
use std::marker::PhantomData;
use vstd::arithmetic::div_mod::lemma_fundamental_div_mod_converse;
use vstd::prelude::*;

use crate::affine::{
    coeff_a, coeff_b, coeff_gx, coeff_gy, curve_ok, odd_field, on_curve, order_of, AffinePoint,
    SWCurveConfig,
};
use crate::curve_closure::lemma_curve_ok;
use crate::prime_field::{
    fe_mul, field_ok, inverse_ok, modulus_of, n_prime_of, r2_of, PrimeFieldConfig,
    PrimeFieldElement,
};
use crate::u1024::{lemma_limbs_val_16, lemma_limb_weight_values, U1024};

verus! {

/// The base field prime `p` (1024 bits).
pub const CURVE_MODULUS: [u64; 16] = [
    0xdd20d97000000001, 0xf971f3bf976a7d6a, 0xe0a648f61a20e876, 0x9367aa32ebb42449,
    0x73f2b4591eb70df3, 0xf80fb080c07d6a07, 0x6c02f32cb94d786b, 0xf4e289806084e50e,
    0x824ca74ac0844160, 0xbca1686245b326fe, 0x685cfeeb388dc45e, 0x5785b8a073e482e8,
    0xc93f38265ed6b830, 0xc866902599220d30, 0x10eea35c61fea054, 0xc0859da83a500988,
];

/// `R^2 mod p` for `R = 2^1024`.
pub const CURVE_R2: [u64; 16] = [
    0x25a31bda75cd5d2a, 0xc5558f8c2e41f637, 0xeee858d2971b7864, 0x38f05c3c12f9e7f9,
    0xa2d663a3f1bc9e2e, 0x56cdacf243bacaf7, 0x4ab8ba8e7c615419, 0xff82b50e24ce0dca,
    0x1e5de4c05577902e, 0xbba2f1e0342f5d50, 0x70b2fe3e24758787, 0xfb4f72a995fa40b1,
    0x28023bfd6f9a098d, 0x1e5ccda662253d83, 0x27f1ad38c1dcac4b, 0x93a82f8c8ef317b0,
];

/// `-p^{-1} mod 2^1024`.
pub const CURVE_N_PRIME: [u64; 16] = [
    0xdd20d96fffffffff, 0x6825375d22bb6c6a, 0x9e4a400bc4ba0c9d, 0xc3dcd47a25cf3408,
    0x71d844464df78355, 0xb1a5d6acc3b5e652, 0x612dbd981ca9086d, 0xde486faf0fa78ee0,
    0xba348109a9ff835a, 0xe40aafb51e62c7c8, 0x415f371dee6db3cf, 0x511108a836ea837a,
    0x1723203d2185b488, 0xb6ce7ac3b989107b, 0x7a43da3f716de311, 0x63584ccd9e266029,
];

/// The order `r` of the subgroup (512 bits).
pub const CURVE_ORDER: [u64; 16] = [
    0x1055d97000000001, 0x4bcfd36fc2a945c5, 0x5e46e47fc61cab50, 0x97463bf23832d0de,
    0x425259e247711927, 0xebf209d918f0ef27, 0x9ec8078aea7bc954, 0xc042c3389e72044d,
    0x0000000000000000, 0x0000000000000000, 0x0000000000000000, 0x0000000000000000,
    0x0000000000000000, 0x0000000000000000, 0x0000000000000000, 0x0000000000000000,
];

/// `R^2 mod r`.
pub const CURVE_ORDER_R2: [u64; 16] = [
    0xfef9d70963982af5, 0xd631941ca5405f5c, 0xde4799f20b2b4733, 0x917d561b57af1d8c,
    0xf222d242afe732ed, 0x81681a90292dbad4, 0xaf731d4786470707, 0x7a6cc720f089a031,
    0x0000000000000000, 0x0000000000000000, 0x0000000000000000, 0x0000000000000000,
    0x0000000000000000, 0x0000000000000000, 0x0000000000000000, 0x0000000000000000,
];

/// `-r^{-1} mod 2^1024`.
pub const CURVE_ORDER_N_PRIME: [u64; 16] = [
    0x1055d96fffffffff, 0x2a8e6517a59a34c5, 0xfdd1069ac38e9e08, 0xce90d3f61c5cbf47,
    0x935826c06a2bb11a, 0x0abf16b6f98191ab, 0x46bb3334b8511cca, 0x7848016626ba4f92,
    0xd9ddf945a32519e7, 0x3d3b2981f48a4a15, 0x134081e647e8b2e8, 0x2427bef95ba9221b,
    0xc0bdeafa9720ad35, 0x125e159b7e957329, 0x9df5806d356207f9, 0xcc57f55cce4e57f9,
];

/// The coefficient `a = 0`, in Montgomery form.
pub const CURVE_A: [u64; 16] = [
    0x0000000000000000, 0x0000000000000000, 0x0000000000000000, 0x0000000000000000,
    0x0000000000000000, 0x0000000000000000, 0x0000000000000000, 0x0000000000000000,
    0x0000000000000000, 0x0000000000000000, 0x0000000000000000, 0x0000000000000000,
    0x0000000000000000, 0x0000000000000000, 0x0000000000000000, 0x0000000000000000,
];

/// The coefficient `b = 41`, in Montgomery form.
pub const CURVE_B: [u64; 16] = [
    0x5b12225fffffffca, 0x61f695960f898b75, 0x9cec9c167d0ef6e7, 0xe82219424800586a,
    0x8acdf53385630e9e, 0xacb0c4d7658ba26d, 0x3760b490e9a89939, 0x5836feeba3f7aef5,
    0x83d4b63b641a358c, 0x35f3fb454c35c650, 0xfc623a6212189404, 0x89cb0e278dcc62f9,
    0x8caa27e7feb525cd, 0xba5d9811b2d137b5, 0x6da98a83544a2e1d, 0x63d0be83b31dfd4c,
];

/// The generator's `x`, in Montgomery form.
pub const CURVE_GENERATOR_X: [u64; 16] = [
    0x835cb760edc9ec8f, 0xcd38f2bf328eee71, 0xf6015582462c4fb5, 0xccc686a1b170d2bb,
    0x4b99c5d56547421b, 0xf5b80d5ae07d3509, 0xe1999b14798bc2c6, 0x9c3e524c63b363b7,
    0x41d761436153009a, 0xc355de25ec713886, 0x5aa3196771fe89cb, 0xeea124a9aa0984b5,
    0x84294f7ff439451a, 0xa1246de53bb51a37, 0xfb18114052a28786, 0x9f8bbf7680c1bc53,
];

/// The generator's `y`, in Montgomery form.
pub const CURVE_GENERATOR_Y: [u64; 16] = [
    0x9c9cc97e68d9e691, 0xb5a61daef627f5c8, 0x72616ca6868fd7e0, 0xce4ee2aa6aa9e741,
    0x22a325721b82c1fa, 0x83bf4402af90713d, 0xe47afb6d690ac5b6, 0x5bf34965f74283d9,
    0xb5d5537f5c87ae70, 0x70af5ff5bbf0ea1e, 0xcf3036a9094f4e24, 0xfdc911daab8088a8,
    0xa7c9e9d91227705c, 0x026a50d1713859e7, 0x5480b47a395b800e, 0x84c4180d8e3b9cde,
];

/// The base field of Curve1024.
#[derive(Clone, Copy, Debug, PartialEq, Eq)]
pub struct Curve1024BaseField;

impl PrimeFieldConfig for Curve1024BaseField {
    const MODULUS: [u64; 16] = CURVE_MODULUS;
    const R2: [u64; 16] = CURVE_R2;
    const N_PRIME: [u64; 16] = CURVE_N_PRIME;
}

/// The scalar field of Curve1024, modulo the group order `r`.
#[derive(Clone, Copy, Debug, PartialEq, Eq)]
pub struct Curve1024ScalarField;

impl PrimeFieldConfig for Curve1024ScalarField {
    const MODULUS: [u64; 16] = CURVE_ORDER;
    const R2: [u64; 16] = CURVE_ORDER_R2;
    const N_PRIME: [u64; 16] = CURVE_ORDER_N_PRIME;
}

/// Curve1024: `y^2 = x^3 + 41` over [`Curve1024BaseField`].
#[derive(Clone, Copy, Debug, PartialEq, Eq)]
pub struct Curve1024Config;

impl SWCurveConfig for Curve1024Config {
    type BaseField = Curve1024BaseField;
    type ScalarField = Curve1024ScalarField;

    const COEFF_A: [u64; 16] = CURVE_A;
    const COEFF_B: [u64; 16] = CURVE_B;
    const ORDER: [u64; 16] = CURVE_ORDER;
    const GENERATOR_X: [u64; 16] = CURVE_GENERATOR_X;
    const GENERATOR_Y: [u64; 16] = CURVE_GENERATOR_Y;

    /// The generator `G`, which lies on the curve ([`lemma_generator_on_curve`]).
    fn generator() -> (g: AffinePoint<Self>) {
        AffinePoint {
            x: PrimeFieldElement::from_montgomery(U1024(CURVE_GENERATOR_X)),
            y: PrimeFieldElement::from_montgomery(U1024(CURVE_GENERATOR_Y)),
            is_infinite: false,
            _config: PhantomData,
        }
    }
}

/// The modulus as a number.
proof fn lemma_curve_modulus_value()
    ensures
        modulus_of::<Curve1024BaseField>() == 0xc0859da83a50098810eea35c61fea054c866902599220d30c93f38265ed6b8305785b8a073e482e8685cfeeb388dc45ebca1686245b326fe824ca74ac0844160f4e289806084e50e6c02f32cb94d786bf80fb080c07d6a0773f2b4591eb70df39367aa32ebb42449e0a648f61a20e876f971f3bf976a7d6add20d97000000001nat,
{
    lemma_limb_weight_values();
    lemma_limbs_val_16(CURVE_MODULUS@);
}

/// The Montgomery constant as a number.
proof fn lemma_curve_n_prime_value()
    ensures
        n_prime_of::<Curve1024BaseField>() == 0x63584ccd9e2660297a43da3f716de311b6ce7ac3b989107b1723203d2185b488511108a836ea837a415f371dee6db3cfe40aafb51e62c7c8ba348109a9ff835ade486faf0fa78ee0612dbd981ca9086db1a5d6acc3b5e65271d844464df78355c3dcd47a25cf34089e4a400bc4ba0c9d6825375d22bb6c6add20d96fffffffffnat,
{
    lemma_limb_weight_values();
    lemma_limbs_val_16(CURVE_N_PRIME@);
}

/// The coefficient `a` as a number.
proof fn lemma_curve_a_value()
    ensures
        coeff_a::<Curve1024Config>() == 0x0nat,
{
    lemma_limb_weight_values();
    lemma_limbs_val_16(CURVE_A@);
}

/// The coefficient `b` (Montgomery form) as a number.
proof fn lemma_curve_b_value()
    ensures
        coeff_b::<Curve1024Config>() == 0x63d0be83b31dfd4c6da98a83544a2e1dba5d9811b2d137b58caa27e7feb525cd89cb0e278dcc62f9fc623a621218940435f3fb454c35c65083d4b63b641a358c5836feeba3f7aef53760b490e9a89939acb0c4d7658ba26d8acdf53385630e9ee82219424800586a9cec9c167d0ef6e761f695960f898b755b12225fffffffcanat,
{
    lemma_limb_weight_values();
    lemma_limbs_val_16(CURVE_B@);
}

/// The generator's `x` (Montgomery form) as a number.
proof fn lemma_curve_generator_x_value()
    ensures
        coeff_gx::<Curve1024Config>() == 0x9f8bbf7680c1bc53fb18114052a28786a1246de53bb51a3784294f7ff439451aeea124a9aa0984b55aa3196771fe89cbc355de25ec71388641d761436153009a9c3e524c63b363b7e1999b14798bc2c6f5b80d5ae07d35094b99c5d56547421bccc686a1b170d2bbf6015582462c4fb5cd38f2bf328eee71835cb760edc9ec8fnat,
{
    lemma_limb_weight_values();
    lemma_limbs_val_16(CURVE_GENERATOR_X@);
}

/// The generator's `y` (Montgomery form) as a number.
proof fn lemma_curve_generator_y_value()
    ensures
        coeff_gy::<Curve1024Config>() == 0x84c4180d8e3b9cde5480b47a395b800e026a50d1713859e7a7c9e9d91227705cfdc911daab8088a8cf3036a9094f4e2470af5ff5bbf0ea1eb5d5537f5c87ae705bf34965f74283d9e47afb6d690ac5b683bf4402af90713d22a325721b82c1face4ee2aa6aa9e74172616ca6868fd7e0b5a61daef627f5c89c9cc97e68d9e691nat,
{
    lemma_limb_weight_values();
    lemma_limbs_val_16(CURVE_GENERATOR_Y@);
}

/// `G.y * G.y` in the base field.
proof fn lemma_gy_squared()
    ensures
        fe_mul::<Curve1024BaseField>(0x84c4180d8e3b9cde5480b47a395b800e026a50d1713859e7a7c9e9d91227705cfdc911daab8088a8cf3036a9094f4e2470af5ff5bbf0ea1eb5d5537f5c87ae705bf34965f74283d9e47afb6d690ac5b683bf4402af90713d22a325721b82c1face4ee2aa6aa9e74172616ca6868fd7e0b5a61daef627f5c89c9cc97e68d9e691nat, 0x84c4180d8e3b9cde5480b47a395b800e026a50d1713859e7a7c9e9d91227705cfdc911daab8088a8cf3036a9094f4e2470af5ff5bbf0ea1eb5d5537f5c87ae705bf34965f74283d9e47afb6d690ac5b683bf4402af90713d22a325721b82c1face4ee2aa6aa9e74172616ca6868fd7e0b5a61daef627f5c89c9cc97e68d9e691nat) == 0x42e99720db98d034a30c42b4a156aa15473f9f15bb1b3ee081d496d633e42ea5da7fba49c382495f55f4855b6677945cd5f7fe3df58be90d8cb650009509d2fe1d1df77756c25d835238a8a173511b420e27785978c882aedbcea31b666ec649f75f57f6fdf67fa299bfdc3b86a0302107cdebed9106daaf9e9cc00eec4a275bnat,
{
    lemma_limb_weight_values();
    lemma_curve_modulus_value();
    lemma_curve_n_prime_value();
    lemma_fundamental_div_mod_converse(0x44dacf02d1b1d0706a13ed877190e2f3d2499b48aa6ab1f4a119a81ae981596d4644848919b54fc79496d3585b6e5905c9e32e805ce0d1e2166627b6b37faa5832e46b1a5404f8af64c1b24c47009dc4223b2832f863487392a2f6ac5c46ee666077c3cb8b5559a3223e224d7c24bb3aad99077ffd28726336cf5e62f90dbd9685fe29f4b507fe86b79a765d7811d65fc34a04c9492b8b6c457a48425ff7a9bfd8af4e246471dabd4b426591dd97d62ab788a14e5eb5294cf3b8c7e096470b22b142cfbb60378c3add4ab222764551321c6135f8fc5c2a4a3381400f183e1b3ea928e49211fd4b779726c13db7ac55f578fb406c1468e63346386d8a817ade21int, 0x10000000000000000000000000000000000000000000000000000000000000000000000000000000000000000000000000000000000000000000000000000000000000000000000000000000000000000000000000000000000000000000000000000000000000000000000000000000000000000000000000000000000000000int, 0x44dacf02d1b1d0706a13ed877190e2f3d2499b48aa6ab1f4a119a81ae981596d4644848919b54fc79496d3585b6e5905c9e32e805ce0d1e2166627b6b37faa5832e46b1a5404f8af64c1b24c47009dc4223b2832f863487392a2f6ac5c46ee666077c3cb8b5559a3223e224d7c24bb3aad99077ffd28726336cf5e62f90dbd96int, 0x85fe29f4b507fe86b79a765d7811d65fc34a04c9492b8b6c457a48425ff7a9bfd8af4e246471dabd4b426591dd97d62ab788a14e5eb5294cf3b8c7e096470b22b142cfbb60378c3add4ab222764551321c6135f8fc5c2a4a3381400f183e1b3ea928e49211fd4b779726c13db7ac55f578fb406c1468e63346386d8a817ade21int);
    lemma_fundamental_div_mod_converse(0x33ff81cb21e384d535c3975be0662d4b73cddc612d9d352b7c1256f750d7e7d3ff62aac1afe6538ac85c5d8bb85f4f54cd7cd5aea97557048f4b9fecf95803f639b7b7f06db3d9def7dbff57d2b9dab45a99d40462b0115939f458c03b66ab41e077b8fcdcebdfbebb19ac05296e7a2d54caa14b46558f23cc385ee8ab8f0f3afd6ad6ef6595466e2cce70e5f16a6ff1ce0b84b36ab69f900caea13c45466e29bfc850858545c81d8f67248e0df69ce9880f73de8c549283b0c0f615d535b3155c4df4fce8989f2b773a02b82f94f57fa899011a96284261ba14a3bfb21dc53a53e039ba3e9d6ba34277646cc4b64375a725e35dd2e994eec6f2b9e57e8521dfint, 0x10000000000000000000000000000000000000000000000000000000000000000000000000000000000000000000000000000000000000000000000000000000000000000000000000000000000000000000000000000000000000000000000000000000000000000000000000000000000000000000000000000000000000000int, 0x33ff81cb21e384d535c3975be0662d4b73cddc612d9d352b7c1256f750d7e7d3ff62aac1afe6538ac85c5d8bb85f4f54cd7cd5aea97557048f4b9fecf95803f639b7b7f06db3d9def7dbff57d2b9dab45a99d40462b0115939f458c03b66ab41e077b8fcdcebdfbebb19ac05296e7a2d54caa14b46558f23cc385ee8ab8f0f3aint, 0xfd6ad6ef6595466e2cce70e5f16a6ff1ce0b84b36ab69f900caea13c45466e29bfc850858545c81d8f67248e0df69ce9880f73de8c549283b0c0f615d535b3155c4df4fce8989f2b773a02b82f94f57fa899011a96284261ba14a3bfb21dc53a53e039ba3e9d6ba34277646cc4b64375a725e35dd2e994eec6f2b9e57e8521dfint);
    lemma_fundamental_div_mod_converse(0x1036f34c915e8d9bcb3fae61103554a6a0fa62f3b543d4c114b13cefc92bae6d6320572ea3766cc47be5184469f0558bb929966a03b3f100c0f02f74b558e145f120080f7b7474291be3b9bce2c9e93ae063728da3945ecb64fc157748525d43d8ac70229e9aaa3ec7a662531a0c11898013fdfad2871581a7bbd997eec4a275c0000000000000000000000000000000000000000000000000000000000000000000000000000000000000000000000000000000000000000000000000000000000000000000000000000000000000000000000000000000000000000000000000000000000000000000000000000000000000000000000000000000000000000int, 0x10000000000000000000000000000000000000000000000000000000000000000000000000000000000000000000000000000000000000000000000000000000000000000000000000000000000000000000000000000000000000000000000000000000000000000000000000000000000000000000000000000000000000000int, 0x1036f34c915e8d9bcb3fae61103554a6a0fa62f3b543d4c114b13cefc92bae6d6320572ea3766cc47be5184469f0558bb929966a03b3f100c0f02f74b558e145f120080f7b7474291be3b9bce2c9e93ae063728da3945ecb64fc157748525d43d8ac70229e9aaa3ec7a662531a0c11898013fdfad2871581a7bbd997eec4a275cint, 0int);
}

/// `G.x * G.x` in the base field.
proof fn lemma_gx_squared()
    ensures
        fe_mul::<Curve1024BaseField>(0x9f8bbf7680c1bc53fb18114052a28786a1246de53bb51a3784294f7ff439451aeea124a9aa0984b55aa3196771fe89cbc355de25ec71388641d761436153009a9c3e524c63b363b7e1999b14798bc2c6f5b80d5ae07d35094b99c5d56547421bccc686a1b170d2bbf6015582462c4fb5cd38f2bf328eee71835cb760edc9ec8fnat, 0x9f8bbf7680c1bc53fb18114052a28786a1246de53bb51a3784294f7ff439451aeea124a9aa0984b55aa3196771fe89cbc355de25ec71388641d761436153009a9c3e524c63b363b7e1999b14798bc2c6f5b80d5ae07d35094b99c5d56547421bccc686a1b170d2bbf6015582462c4fb5cd38f2bf328eee71835cb760edc9ec8fnat) == 0xa0374ffaede8734a0913d306ed6a4ea147aa0585509abccf677c8f1a4a348aa313dee9536904ddafce39bab0c61bcfa70922ba421d94ebfe1d6dd1f17946c913226638c61bec377b1c1b715a01a998519c7cb06abb9adfd2ebfd2bff3246d9e50c2dd684361bf57b273cb3846296fdd03a6ae2a377b2a65cc305dbfe4e19a607nat,
{
    lemma_limb_weight_values();
    lemma_curve_modulus_value();
    lemma_curve_n_prime_value();
    lemma_fundamental_div_mod_converse(0x636ee41eadd2854edf7bce9b82b1a35593471065a683ffd21014bcae1715f77e6fbdb5e3afa0ec5000ebf72862be81b23d0b7aa5b8486992cf6589d2fd68aacc7c38504eebe1d3b030c42ae87eca7ac20d44cfc71017b9d4932e6819088fc3f13f09678b6c6b8cb06ded024183471eebf35b1e5f96db32975f819f2193eb317fc1d4d270ba4d0c7851564e8e7f6217a950eb8c36c783dde036845767c20b60b6347f79973b9a73b2fd14aaf0cc8ed200c671555a7cbf94d0c09abd909e71948e20437df44847fa7bf3aef37f7468e625c88d9b6f8c1f95dc8c8c8be13f9f23ac1bdd4b9d2cdcea061f0d08c6e6504ab207c228c32f240424454d5c861925f7e1int, 0x10000000000000000000000000000000000000000000000000000000000000000000000000000000000000000000000000000000000000000000000000000000000000000000000000000000000000000000000000000000000000000000000000000000000000000000000000000000000000000000000000000000000000000int, 0x636ee41eadd2854edf7bce9b82b1a35593471065a683ffd21014bcae1715f77e6fbdb5e3afa0ec5000ebf72862be81b23d0b7aa5b8486992cf6589d2fd68aacc7c38504eebe1d3b030c42ae87eca7ac20d44cfc71017b9d4932e6819088fc3f13f09678b6c6b8cb06ded024183471eebf35b1e5f96db32975f819f2193eb317fint, 0xc1d4d270ba4d0c7851564e8e7f6217a950eb8c36c783dde036845767c20b60b6347f79973b9a73b2fd14aaf0cc8ed200c671555a7cbf94d0c09abd909e71948e20437df44847fa7bf3aef37f7468e625c88d9b6f8c1f95dc8c8c8be13f9f23ac1bdd4b9d2cdcea061f0d08c6e6504ab207c228c32f240424454d5c861925f7e1int);
    lemma_fundamental_div_mod_converse(0x4b3828b0cc703a2ae68105d3c580caca495570437f5f162fa0cf99f8bae553cd356f6be2e586e4be085dc8e7590ac0cdaa6b4947f022cfb4ffc4a0f736d616e20bf5d2e84d44ad9df03c5a6ccd106c2cdeb05440ac67a15bfeb012b9f3d67b6c5c9f86a806d60b7ea82258a7facf4a54a9744d6335c926e615aa1d026010c47850d2fb4c40a620254ba840f70058b93dd4499d0e96a17813bbf0911fc781082758ceb82b363a186e452d8fc25e07b14fa478597924566d088a27e9a40e5d2d74c9236110cd31a0b5ab14b15fdf6084bc60b7f8d7b88e689f016cef17ce36e4c0f98aa64d145bc779dc3f97007098f01534cc87ec6c419cbe238ccee9e6da081fint, 0x10000000000000000000000000000000000000000000000000000000000000000000000000000000000000000000000000000000000000000000000000000000000000000000000000000000000000000000000000000000000000000000000000000000000000000000000000000000000000000000000000000000000000000int, 0x4b3828b0cc703a2ae68105d3c580caca495570437f5f162fa0cf99f8bae553cd356f6be2e586e4be085dc8e7590ac0cdaa6b4947f022cfb4ffc4a0f736d616e20bf5d2e84d44ad9df03c5a6ccd106c2cdeb05440ac67a15bfeb012b9f3d67b6c5c9f86a806d60b7ea82258a7facf4a54a9744d6335c926e615aa1d026010c478int, 0x50d2fb4c40a620254ba840f70058b93dd4499d0e96a17813bbf0911fc781082758ceb82b363a186e452d8fc25e07b14fa478597924566d088a27e9a40e5d2d74c9236110cd31a0b5ab14b15fdf6084bc60b7f8d7b88e689f016cef17ce36e4c0f98aa64d145bc779dc3f97007098f01534cc87ec6c419cbe238ccee9e6da081fint);
    lemma_fundamental_div_mod_converse(0xa0374ffaede8734a0913d306ed6a4ea147aa0585509abccf677c8f1a4a348aa313dee9536904ddafce39bab0c61bcfa70922ba421d94ebfe1d6dd1f17946c913226638c61bec377b1c1b715a01a998519c7cb06abb9adfd2ebfd2bff3246d9e50c2dd684361bf57b273cb3846296fdd03a6ae2a377b2a65cc305dbfe4e19a6070000000000000000000000000000000000000000000000000000000000000000000000000000000000000000000000000000000000000000000000000000000000000000000000000000000000000000000000000000000000000000000000000000000000000000000000000000000000000000000000000000000000000000int, 0x10000000000000000000000000000000000000000000000000000000000000000000000000000000000000000000000000000000000000000000000000000000000000000000000000000000000000000000000000000000000000000000000000000000000000000000000000000000000000000000000000000000000000000int, 0xa0374ffaede8734a0913d306ed6a4ea147aa0585509abccf677c8f1a4a348aa313dee9536904ddafce39bab0c61bcfa70922ba421d94ebfe1d6dd1f17946c913226638c61bec377b1c1b715a01a998519c7cb06abb9adfd2ebfd2bff3246d9e50c2dd684361bf57b273cb3846296fdd03a6ae2a377b2a65cc305dbfe4e19a607int, 0int);
}

/// `G.x^2 * G.x` in the base field.
proof fn lemma_gx_cubed()
    ensures
        fe_mul::<Curve1024BaseField>(0xa0374ffaede8734a0913d306ed6a4ea147aa0585509abccf677c8f1a4a348aa313dee9536904ddafce39bab0c61bcfa70922ba421d94ebfe1d6dd1f17946c913226638c61bec377b1c1b715a01a998519c7cb06abb9adfd2ebfd2bff3246d9e50c2dd684361bf57b273cb3846296fdd03a6ae2a377b2a65cc305dbfe4e19a607nat, 0x9f8bbf7680c1bc53fb18114052a28786a1246de53bb51a3784294f7ff439451aeea124a9aa0984b55aa3196771fe89cbc355de25ec71388641d761436153009a9c3e524c63b363b7e1999b14798bc2c6f5b80d5ae07d35094b99c5d56547421bccc686a1b170d2bbf6015582462c4fb5cd38f2bf328eee71835cb760edc9ec8fnat) == 0x9f9e764562cadc7046515b8daf0b1c4c55489729a16c145bbe69a7149405c108a83a64c2a99a694dc1ef49e48cecc4b75ca56b5aef0949bb8b2e410ff173ded2b9c9820c134f939c86dae73d42f5fa7459866402d3ba4a48c4f36240ffc2c59ea2a4e8e7a1aa4b81dd79891b23b221b09f494a1718e7cca520ab771eec4a2792nat,
{
    lemma_limb_weight_values();
    lemma_curve_modulus_value();
    lemma_curve_n_prime_value();
    lemma_fundamental_div_mod_converse(0x63d9d088b5c289899cf1b51716d42fd065a98b2caa0129e0097390f5e5c9b93be55efc30fb9ec7551f69e0679f068fa7145e80a02ad9d6367f066647582c7ae8e4f6be9f5efbcefc65bed046639a6ffbecb2673bcce78e8239d9a66381ad59e0aaf667a7884fc64511af2dd216dd946ffe6cb6c09c91576d869018e81d5ce52a317187ba9f65343ccdaa7264bddf3c09836bf1a58b0bf6f46d83704c2ac45e868fa32dfb3d5a398d4e08929f71f49df12405787f49165d4aa7a51599719e0a17f4123ad4573d2a9e6c0b6e55ac846eb8a77eb854a129c4f3185d4a60b55eb482d95e79f6112892074f9fc9e6732288a7f6e3cc8e58e943545edea7851be131e9int, 0x10000000000000000000000000000000000000000000000000000000000000000000000000000000000000000000000000000000000000000000000000000000000000000000000000000000000000000000000000000000000000000000000000000000000000000000000000000000000000000000000000000000000000000int, 0x63d9d088b5c289899cf1b51716d42fd065a98b2caa0129e0097390f5e5c9b93be55efc30fb9ec7551f69e0679f068fa7145e80a02ad9d6367f066647582c7ae8e4f6be9f5efbcefc65bed046639a6ffbecb2673bcce78e8239d9a66381ad59e0aaf667a7884fc64511af2dd216dd946ffe6cb6c09c91576d869018e81d5ce52aint, 0x317187ba9f65343ccdaa7264bddf3c09836bf1a58b0bf6f46d83704c2ac45e868fa32dfb3d5a398d4e08929f71f49df12405787f49165d4aa7a51599719e0a17f4123ad4573d2a9e6c0b6e55ac846eb8a77eb854a129c4f3185d4a60b55eb482d95e79f6112892074f9fc9e6732288a7f6e3cc8e58e943545edea7851be131e9int);
    lemma_fundamental_div_mod_converse(0x132ff5593e8b80f311c28c0cba7f9be8f6593262310ea62232e45c43728c1d4c0cef94d53d7327439744b594186badbc3a5fb7728f0766d8eab184903f0c328f1c7fa186fb3479fb0cb290ffce08fc1a5eddac55f492907c4e4bc97100736ad2f329f9e1d17ea39c2c3ebf3b76416e4ff3a54f71899d64c5341d3aab010ebe984f798e300aaa29b1152a880fd23a526d47a874d548459518b2e022cdd05712e3343023e221d55b89fbc446525fa361b23726d8611d9f3bb8a5b861870f110fbbfa808a2066be8d8edd23ff38b91f798619e39bac762766a70d070cc632d1df8eb7613736bbc6e9eb77c45cc29eddf32e8db03adeb1b4b6401915af6ae41ece17int, 0x10000000000000000000000000000000000000000000000000000000000000000000000000000000000000000000000000000000000000000000000000000000000000000000000000000000000000000000000000000000000000000000000000000000000000000000000000000000000000000000000000000000000000000int, 0x132ff5593e8b80f311c28c0cba7f9be8f6593262310ea62232e45c43728c1d4c0cef94d53d7327439744b594186badbc3a5fb7728f0766d8eab184903f0c328f1c7fa186fb3479fb0cb290ffce08fc1a5eddac55f492907c4e4bc97100736ad2f329f9e1d17ea39c2c3ebf3b76416e4ff3a54f71899d64c5341d3aab010ebe98int, 0x4f798e300aaa29b1152a880fd23a526d47a874d548459518b2e022cdd05712e3343023e221d55b89fbc446525fa361b23726d8611d9f3bb8a5b861870f110fbbfa808a2066be8d8edd23ff38b91f798619e39bac762766a70d070cc632d1df8eb7613736bbc6e9eb77c45cc29eddf32e8db03adeb1b4b6401915af6ae41ece17int);
    lemma_fundamental_div_mod_converse(0x9f9e764562cadc7046515b8daf0b1c4c55489729a16c145bbe69a7149405c108a83a64c2a99a694dc1ef49e48cecc4b75ca56b5aef0949bb8b2e410ff173ded2b9c9820c134f939c86dae73d42f5fa7459866402d3ba4a48c4f36240ffc2c59ea2a4e8e7a1aa4b81dd79891b23b221b09f494a1718e7cca520ab771eec4a27920000000000000000000000000000000000000000000000000000000000000000000000000000000000000000000000000000000000000000000000000000000000000000000000000000000000000000000000000000000000000000000000000000000000000000000000000000000000000000000000000000000000000000int, 0x10000000000000000000000000000000000000000000000000000000000000000000000000000000000000000000000000000000000000000000000000000000000000000000000000000000000000000000000000000000000000000000000000000000000000000000000000000000000000000000000000000000000000000int, 0x9f9e764562cadc7046515b8daf0b1c4c55489729a16c145bbe69a7149405c108a83a64c2a99a694dc1ef49e48cecc4b75ca56b5aef0949bb8b2e410ff173ded2b9c9820c134f939c86dae73d42f5fa7459866402d3ba4a48c4f36240ffc2c59ea2a4e8e7a1aa4b81dd79891b23b221b09f494a1718e7cca520ab771eec4a2792int, 0int);
}

/// The generator satisfies the curve equation.
pub proof fn lemma_generator_on_curve()
    ensures
        on_curve::<Curve1024Config>((coeff_gx::<Curve1024Config>(), coeff_gy::<Curve1024Config>(), false)),
{
    lemma_limb_weight_values();
    lemma_curve_modulus_value();
    lemma_curve_a_value();
    lemma_curve_b_value();
    lemma_curve_generator_x_value();
    lemma_curve_generator_y_value();
    lemma_gy_squared();
    lemma_gx_squared();
    lemma_gx_cubed();
}

/// The constant `R^2 mod p` of the base field as a number.
proof fn lemma_curve_r2_value()
    ensures
        r2_of::<Curve1024BaseField>() == 0x93a82f8c8ef317b027f1ad38c1dcac4b1e5ccda662253d8328023bfd6f9a098dfb4f72a995fa40b170b2fe3e24758787bba2f1e0342f5d501e5de4c05577902eff82b50e24ce0dca4ab8ba8e7c61541956cdacf243bacaf7a2d663a3f1bc9e2e38f05c3c12f9e7f9eee858d2971b7864c5558f8c2e41f63725a31bda75cd5d2anat,
{
    lemma_limb_weight_values();
    lemma_limbs_val_16(CURVE_R2@);
}

/// The constants of the base field are consistent, and its modulus is odd.
pub proof fn lemma_base_field_ok()
    ensures
        field_ok::<Curve1024BaseField>(),
        modulus_of::<Curve1024BaseField>() % 2 == 1,
{
    lemma_limb_weight_values();
    lemma_curve_modulus_value();
    lemma_curve_n_prime_value();
    lemma_curve_r2_value();
    lemma_fundamental_div_mod_converse(0x4ab613a88d1d83ade1ac39fff58bd2c876d30efbc767563c7f3095ec412efb8c434d8da2fb888f3ca356fd4dac2bb916cc1f342810141700c48bffdd12b256107c2e69b073ef451da3baed2410d41387c66c43b385737d66e8fb1853c7b810b25cda524ffae3cc5701db4e35548f01e773568d509f841d3b74c1eef3a15259000000000000000000000000000000000000000000000000000000000000000000000000000000000000000000000000000000000000000000000000000000000000000000000000000000000000000000000000000000000000000000000000000000000000000000000000000000000000000000000000000000000000000000int, 0x10000000000000000000000000000000000000000000000000000000000000000000000000000000000000000000000000000000000000000000000000000000000000000000000000000000000000000000000000000000000000000000000000000000000000000000000000000000000000000000000000000000000000000int, 0x4ab613a88d1d83ade1ac39fff58bd2c876d30efbc767563c7f3095ec412efb8c434d8da2fb888f3ca356fd4dac2bb916cc1f342810141700c48bffdd12b256107c2e69b073ef451da3baed2410d41387c66c43b385737d66e8fb1853c7b810b25cda524ffae3cc5701db4e35548f01e773568d509f841d3b74c1eef3a1525900int, 0int);
    lemma_fundamental_div_mod_converse(0x100000000000000000000000000000000000000000000000000000000000000000000000000000000000000000000000000000000000000000000000000000000000000000000000000000000000000000000000000000000000000000000000000000000000000000000000000000000000000000000000000000000000000000000000000000000000000000000000000000000000000000000000000000000000000000000000000000000000000000000000000000000000000000000000000000000000000000000000000000000000000000000000000000000000000000000000000000000000000000000000000000000000000000000000000000000int, 0xc0859da83a50098810eea35c61fea054c866902599220d30c93f38265ed6b8305785b8a073e482e8685cfeeb388dc45ebca1686245b326fe824ca74ac0844160f4e289806084e50e6c02f32cb94d786bf80fb080c07d6a0773f2b4591eb70df39367aa32ebb42449e0a648f61a20e876f971f3bf976a7d6add20d97000000001int, 0x154687022a986a77b8b67b27071e67533750cc356380c71384dd67124200042188dc074c4d4e136a05ff8eee974304a3efe7e51394f0d9e00a5bebf5b36ff56c8dae9ecca2ea1af2ab694ec856a03b1e0b7f2b4cb84f3d31fcb1e0ee893a210689c3cbd0432b48d013a460b72986cdd75f6d14eb6aabbb5b45f6e40858a32a2d6int, 0x93a82f8c8ef317b027f1ad38c1dcac4b1e5ccda662253d8328023bfd6f9a098dfb4f72a995fa40b170b2fe3e24758787bba2f1e0342f5d501e5de4c05577902eff82b50e24ce0dca4ab8ba8e7c61541956cdacf243bacaf7a2d663a3f1bc9e2e38f05c3c12f9e7f9eee858d2971b7864c5558f8c2e41f63725a31bda75cd5d2aint);
}

/// The group order as a number.
proof fn lemma_order_value()
    ensures
        modulus_of::<Curve1024ScalarField>() == 0xc042c3389e72044d9ec8078aea7bc954ebf209d918f0ef27425259e24771192797463bf23832d0de5e46e47fc61cab504bcfd36fc2a945c51055d97000000001nat,
        order_of::<Curve1024Config>() == 0xc042c3389e72044d9ec8078aea7bc954ebf209d918f0ef27425259e24771192797463bf23832d0de5e46e47fc61cab504bcfd36fc2a945c51055d97000000001nat,
{
    lemma_limb_weight_values();
    lemma_limbs_val_16(CURVE_ORDER@);
}

/// The scalar field's Montgomery constant as a number.
proof fn lemma_order_n_prime_value()
    ensures
        n_prime_of::<Curve1024ScalarField>() == 0xcc57f55cce4e57f99df5806d356207f9125e159b7e957329c0bdeafa9720ad352427bef95ba9221b134081e647e8b2e83d3b2981f48a4a15d9ddf945a32519e77848016626ba4f9246bb3334b8511cca0abf16b6f98191ab935826c06a2bb11ace90d3f61c5cbf47fdd1069ac38e9e082a8e6517a59a34c51055d96fffffffffnat,
{
    lemma_limb_weight_values();
    lemma_limbs_val_16(CURVE_ORDER_N_PRIME@);
}

/// The constant `R^2 mod p` of the scalar field as a number.
proof fn lemma_order_r2_value()
    ensures
        r2_of::<Curve1024ScalarField>() == 0x7a6cc720f089a031af731d478647070781681a90292dbad4f222d242afe732ed917d561b57af1d8cde4799f20b2b4733d631941ca5405f5cfef9d70963982af5nat,
{
    lemma_limb_weight_values();
    lemma_limbs_val_16(CURVE_ORDER_R2@);
}

/// The constants of the scalar field are consistent, and its modulus is odd.
pub proof fn lemma_scalar_field_ok()
    ensures
        field_ok::<Curve1024ScalarField>(),
        modulus_of::<Curve1024ScalarField>() % 2 == 1,
{
    lemma_limb_weight_values();
    lemma_order_value();
    lemma_order_n_prime_value();
    lemma_order_r2_value();
    lemma_fundamental_div_mod_converse(0x997742870e449baa92a9a908586f545bdc169ade7f59c1fbc39b8cfe773aa52b1632b2153dd3c5fafa739dd3cc53ece64eae4fe00a73a1d608eb0c0971b93c5f0000000000000000000000000000000000000000000000000000000000000000000000000000000000000000000000000000000000000000000000000000000000000000000000000000000000000000000000000000000000000000000000000000000000000000000000000000000000000000000000000000000000000000int, 0x10000000000000000000000000000000000000000000000000000000000000000000000000000000000000000000000000000000000000000000000000000000000000000000000000000000000000000000000000000000000000000000000000000000000000000000000000000000000000000000000000000000000000000int, 0x997742870e449baa92a9a908586f545bdc169ade7f59c1fbc39b8cfe773aa52b1632b2153dd3c5fafa739dd3cc53ece64eae4fe00a73a1d608eb0c0971b93c5fint, 0int);
    lemma_fundamental_div_mod_converse(0x100000000000000000000000000000000000000000000000000000000000000000000000000000000000000000000000000000000000000000000000000000000000000000000000000000000000000000000000000000000000000000000000000000000000000000000000000000000000000000000000000000000000000000000000000000000000000000000000000000000000000000000000000000000000000000000000000000000000000000000000000000000000000000000000000000000000000000000000000000000000000000000000000000000000000000000000000000000000000000000000000000000000000000000000000000000int, 0xc042c3389e72044d9ec8078aea7bc954ebf209d918f0ef27425259e24771192797463bf23832d0de5e46e47fc61cab504bcfd36fc2a945c51055d97000000001int, 0x154dece27a95f98a38d1100eaab6abcc2e4d9b86dad915ed601a60643c4b23505c4d5ed2532cd2591a9bd660f9d91bca57295702e6ccef061c90fecb20ba39b2dea7cddb05b32f37cebd2cdf086c16b27172950cf6d61658c520f1972577e7f1c02f361ef20565eee560cf9cb57fffd2f7ca440bb7985d98e8434088110ca4cabad0f70ccf2c83bdc548ede9da8945b80b8345c08b871ace781f03d1f77120891f0eb3c1e387ddfb5b79254e5fb192b3be0ea23caf8e110e9235ba1269c67d50bint, 0x7a6cc720f089a031af731d478647070781681a90292dbad4f222d242afe732ed917d561b57af1d8cde4799f20b2b4733d631941ca5405f5cfef9d70963982af5int);
}

/// Curve1024 meets what the signature schemes ask of a curve ([`curve_ok`]),
/// its base field has odd characteristic and its coefficient `a` is reduced
/// (what the Jacobian laws ask), once that field has inverses: Fermat's little
/// theorem for its prime modulus, which is not proved here.
pub proof fn lemma_curve1024_ok()
    requires
        inverse_ok::<Curve1024BaseField>(),
    ensures
        odd_field::<Curve1024Config>(),
        curve_ok::<Curve1024Config>(),
        coeff_a::<Curve1024Config>() < modulus_of::<Curve1024BaseField>(),
{
    lemma_base_field_ok();
    lemma_limb_weight_values();
    lemma_curve_modulus_value();
    lemma_order_value();
    lemma_curve_a_value();
    lemma_curve_b_value();
    lemma_curve_generator_x_value();
    lemma_curve_generator_y_value();
    lemma_generator_on_curve();
    lemma_curve_ok::<Curve1024Config>();
}

/// The scalar field of Curve1024 is a consistent field modulo the group order,
/// which is greater than 2.
pub proof fn lemma_curve1024_scalar_field()
    ensures
        field_ok::<Curve1024ScalarField>(),
        modulus_of::<Curve1024ScalarField>() == order_of::<Curve1024Config>(),
        order_of::<Curve1024Config>() > 2,
{
    lemma_scalar_field_ok();
    lemma_order_value();
}

} // verus!
