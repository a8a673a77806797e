use vstd::prelude::*;

verus! {

/// Well-known OBIS register identifiers.
#[non_exhaustive]
#[derive(PartialEq, Eq, Debug, Clone, Copy)]
pub enum Obis {
    /// Sum active energy without reverse blockade (A+ - A-) total [kWh]
    SumActiveInstantaneousPower,
    /// Positive active energy (A+) total [kWh]
    PositiveActiveEnergy,
    /// Positive active energy (A+) in tariff T1 [kWh]
    PositiveActiveEnergyTarif1,
    /// Negative active energy (A+) total [kWh]
    NegativeActiveEnergyTotal,
}

impl Obis {
    /// The six identifier bytes of the register.
    pub open spec fn code(self) -> Seq<u8> {
        match self {
            Obis::SumActiveInstantaneousPower => seq![1u8, 0u8, 16u8, 7u8, 0u8, 255u8],
            Obis::PositiveActiveEnergy => seq![1u8, 0u8, 1u8, 8u8, 0u8, 255u8],
            Obis::PositiveActiveEnergyTarif1 => seq![1u8, 0u8, 1u8, 8u8, 1u8, 255u8],
            Obis::NegativeActiveEnergyTotal => seq![1u8, 0u8, 2u8, 8u8, 0u8, 255u8],
        }
    }

    /// The six identifier bytes of the register, as they appear in a list
    /// entry's object name.
    pub fn obis_number(&self) -> (r: Vec<u8>)
        ensures
            r@ == self.code(),
    {
        let r = match self {
            Obis::SumActiveInstantaneousPower => vec![1u8, 0, 16, 7, 0, 255],
            Obis::PositiveActiveEnergy => vec![1u8, 0, 1, 8, 0, 255],
            Obis::PositiveActiveEnergyTarif1 => vec![1u8, 0, 1, 8, 1, 255],
            Obis::NegativeActiveEnergyTotal => vec![1u8, 0, 2, 8, 0, 255],
        };
        proof {
            assert(r@ =~= self.code());
        }
        r
    }
}

} // verus!
