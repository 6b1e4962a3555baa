use vstd::prelude::*;

verus! {

/// Applies the Scaled Exponential Linear Unit function element-wise.
#[derive(Debug, Default)]
pub struct Selu;

/// Applies the softsign function element-wise.
#[derive(Debug, Default)]
pub struct Softsign;

/// Applies the Tanhshrink function element-wise, `x - tanh(x)`.
#[derive(Debug, Default)]
pub struct Tanhshrink;

impl Selu {
    /// Create the module.
    pub fn new() -> (module: Self)
        ensures
            module == (Selu {}),
    {
        Selu {}
    }

    /// The module's name as it is displayed.
    pub fn to_string(&self) -> (name: String)
        ensures
            name@ == "Selu"@,
    {
        let name = "Selu".to_string();
        proof {
            vstd::string::to_string_from_display_ensures_for_str("Selu", name);
        }
        name
    }
}

impl Softsign {
    /// Create the module.
    pub fn new() -> (module: Self)
        ensures
            module == (Softsign {}),
    {
        Softsign {}
    }

    /// The module's name as it is displayed.
    pub fn to_string(&self) -> (name: String)
        ensures
            name@ == "Softsign"@,
    {
        let name = "Softsign".to_string();
        proof {
            vstd::string::to_string_from_display_ensures_for_str("Softsign", name);
        }
        name
    }
}

impl Tanhshrink {
    /// Create the module.
    pub fn new() -> (module: Self)
        ensures
            module == (Tanhshrink {}),
    {
        Tanhshrink {}
    }

    /// The module's name as it is displayed.
    pub fn to_string(&self) -> (name: String)
        ensures
            name@ == "Tanhshrink"@,
    {
        let name = "Tanhshrink".to_string();
        proof {
            vstd::string::to_string_from_display_ensures_for_str("Tanhshrink", name);
        }
        name
    }
}

} // verus!
