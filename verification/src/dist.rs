//! The marginals that codebooks are made for, by name.

use vstd::prelude::*;
use vstd::string::*;

use crate::text::{append_decimal, decimal};

verus! {

/// The standard normal marginal.
pub struct Gaussian;

impl Gaussian {
    /// The label of the marginal.
    pub fn name(&self) -> (s: String)
        ensures
            s@ == "gaussian"@,
    {
        "gaussian".to_owned()
    }
}

/// A heavy-tailed marginal with whole degrees of freedom.
pub struct StudentT {
    pub nu: u32,
}

impl StudentT {
    /// The label of the marginal.
    pub fn name(&self) -> (s: String)
        ensures
            s@ == "student_t_nu"@ + decimal(self.nu as nat),
    {
        let mut s: String = "student_t_nu".to_owned();
        append_decimal(&mut s, self.nu as u64);
        s
    }

    /// How far the support reaches before standardization: farther for heavier tails.
    pub fn support_base(&self) -> (b: u32)
        ensures
            b == if self.nu == 2 {
                200
            } else if self.nu == 3 {
                80
            } else if self.nu == 4 {
                50
            } else {
                30int
            },
    {
        if self.nu == 2 {
            200
        } else if self.nu == 3 {
            80
        } else if self.nu == 4 {
            50
        } else {
            30
        }
    }
}

} // verus!
