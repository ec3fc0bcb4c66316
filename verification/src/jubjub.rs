//! The JubJub twisted Edwards curve, embedded in the BLS12-381 scalar field, and its subgroup of
//! prime order.

use vstd::prelude::*;

use crate::curve::{on_edwards_curve, Curve, CyclicGroup, EdwardsCurve, EdwardsExpression, EdwardsPoint};
use crate::field::{bls12_381_order, Bls12_381, Element, Field};
use crate::gadget_builder::valid_assignment;
use crate::natural::{digits_value, Natural};
use vstd::arithmetic::div_mod::lemma_fundamental_div_mod_converse;

verus! {

/// The coefficient `d` of JubJub, `-(10240/10241)`.
pub open spec fn jubjub_d() -> nat {
    19257038036680949359750312669786877991949435402254120286184196891950884077233nat
}

/// The generator of JubJub's prime-order subgroup.
pub open spec fn jubjub_generator() -> (nat, nat) {
    (
        11076627216317271660298050606127911965867021807910416450833192264015104452986nat,
        44412834903739585386157632289020980010620626017712148233229312325549216099227nat,
    )
}

/// The JubJub curve `-x^2 + y^2 = 1 + d x^2 y^2`.
pub struct JubJub {}

/// The subgroup of JubJub points of prime order.
pub struct JubJubPrimeSubgroup {}

/// `a = -1`.
fn jubjub_a_element() -> (r: Element<Bls12_381>)
    ensures
        r@ == (bls12_381_order() - 1) as nat,
{
    let one = Element::<Bls12_381>::one();
    let r = one.neg();
    proof {
        crate::field::lemma_neg_value(1, bls12_381_order());
    }
    r
}

fn jubjub_d_element() -> (r: Element<Bls12_381>)
    ensures
        r@ == jubjub_d(),
{
    let digits: Vec<u32> = vec![
        3593748145u32,
        17194966u32,
        928488742u32,
        690847597u32,
        3871178708u32,
        4127035911u32,
        1274686280u32,
        714283239u32,
    ];
    proof {
        assert(digits_value(digits@) == jubjub_d()) by {
            reveal_with_fuel(digits_value, 9);
        }
    }
    Element::from_natural(Natural::from_digits(digits))
}

/// The JubJub generator is a point of the curve.
pub proof fn lemma_generator_on_curve()
    ensures
        on_edwards_curve(
            (bls12_381_order() - 1) as nat,
            jubjub_d(),
            jubjub_generator().0,
            jubjub_generator().1,
            bls12_381_order(),
        ),
{
    let p = bls12_381_order();
    let (x, y) = jubjub_generator();
    let xx = 14495283202255285296982147583260068039563459091859574489291146806759081248434nat;
    let yy = 24287586636123332246009269483366682917075483561427350362844534614710100115815nat;
    let axx = 37940591972870905182465592924925897798127093408668063333312511893179499936079nat;
    let xxyy = 4237433448594052061396489610687275726042135865097864737585330107090364084446nat;
    let dxxyy = 9792303433868046949027121900106614877512024469567775873553387807951018867380nat;
    lemma_fundamental_div_mod_converse(
        (x * x) as int,
        p as int,
        2339842142035254867261038184460038013263887706257662598967576757908707362674int,
        xx as int,
    );
    lemma_fundamental_div_mod_converse(
        (y * y) as int,
        p as int,
        37617373555777258604879565603276265272942079363834329032336366846892809956978int,
        yy as int,
    );
    lemma_fundamental_div_mod_converse(
        (((p - 1) as nat) * xx) as int,
        p as int,
        14495283202255285296982147583260068039563459091859574489291146806759081248433int,
        axx as int,
    );
    lemma_fundamental_div_mod_converse(
        (xx * yy) as int,
        p as int,
        6714018702159885192269584861919500191776391833968716494477183782660275483328int,
        xxyy as int,
    );
    lemma_fundamental_div_mod_converse(
        (jubjub_d() * xxyy) as int,
        p as int,
        1556194434153132487346176879776862025744016501184754348018594525218910196426int,
        dxxyy as int,
    );
    lemma_fundamental_div_mod_converse((axx + yy) as int, p as int, 1, (dxxyy + 1) as int);
    lemma_fundamental_div_mod_converse((dxxyy + 1) as int, p as int, 0, (dxxyy + 1) as int);
}

impl Curve<Bls12_381> for JubJub {}

impl EdwardsCurve<Bls12_381> for JubJub {
    open spec fn coefficient_a() -> nat {
        (bls12_381_order() - 1) as nat
    }

    open spec fn coefficient_d() -> nat {
        jubjub_d()
    }

    fn a() -> (r: Element<Bls12_381>) {
        jubjub_a_element()
    }

    fn d() -> (r: Element<Bls12_381>) {
        jubjub_d_element()
    }
}

impl Curve<Bls12_381> for JubJubPrimeSubgroup {}

impl EdwardsCurve<Bls12_381> for JubJubPrimeSubgroup {
    open spec fn coefficient_a() -> nat {
        (bls12_381_order() - 1) as nat
    }

    open spec fn coefficient_d() -> nat {
        jubjub_d()
    }

    fn a() -> (r: Element<Bls12_381>) {
        jubjub_a_element()
    }

    fn d() -> (r: Element<Bls12_381>) {
        jubjub_d_element()
    }
}

impl CyclicGroup<Bls12_381> for JubJubPrimeSubgroup {
    fn generator_element() -> (r: EdwardsPoint<Bls12_381, JubJubPrimeSubgroup>)
        ensures
            r.coordinates() == jubjub_generator(),
    {
        let x_digits: Vec<u32> = vec![
            1963469178u32,
            660919063u32,
            620383794u32,
            1796598201u32,
            2231070268u32,
            3526879334u32,
            4279321366u32,
            410854937u32,
        ];
        let y_digits: Vec<u32> = vec![
            2539776923u32,
            2369563587u32,
            3679870129u32,
            1519297874u32,
            485812925u32,
            639769570u32,
            4055130336u32,
            1647363603u32,
        ];
        proof {
            assert(digits_value(x_digits@) == jubjub_generator().0) by {
                reveal_with_fuel(digits_value, 9);
            }
            assert(digits_value(y_digits@) == jubjub_generator().1) by {
                reveal_with_fuel(digits_value, 9);
            }
            lemma_generator_on_curve();
        }
        let x = Element::from_natural(Natural::from_digits(x_digits));
        let y = Element::from_natural(Natural::from_digits(y_digits));
        EdwardsPoint::new(x, y)
    }

    fn generator_expression() -> (r: EdwardsExpression<Bls12_381, JubJubPrimeSubgroup>)
        ensures
            forall|vals: Map<u32, nat>|
                valid_assignment(vals, Bls12_381::modulus()) ==> (
                #[trigger] r.x.eval(vals),
                r.y.eval(vals),
            ) == jubjub_generator(),
    {
        let g = Self::generator_element();
        EdwardsExpression::from_point(&g)
    }
}

} // verus!
