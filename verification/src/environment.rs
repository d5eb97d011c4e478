//! The environment of an evaluation: the variables and the earlier results.
use vstd::prelude::*;
use crate::decimals::{constant_value, Constant, Decimal};
use crate::integers::Integer;
use crate::store::{lowercase_of, StoreView, ValueStore};
use crate::values::{Value, ValueView};

verus! {

/// The variables, and the results of earlier evaluations, the latest first.
#[derive(Debug)]
pub struct Environment {
    pub variables: ValueStore,
    pub results: Vec<Value>,
}

/// The views of `values`, in order.
pub open spec fn value_views(values: Seq<Value>) -> Seq<ValueView> {
    values.map_values(|v: Value| v@)
}

/// The result in slot `slot` of `results`, slot 0 being the latest; zero
/// where the slot is empty.
pub open spec fn recalled(results: Seq<ValueView>, slot: int) -> ValueView {
    if 0 <= slot < results.len() {
        results[slot]
    } else {
        ValueView::Integer(0)
    }
}

impl Environment {
    /// The environment without variables and without results.
    pub fn new() -> (e: Environment)
        ensures
            e.variables@ == StoreView::empty(),
            e.results@.len() == 0,
    {
        Environment { variables: ValueStore::new(), results: Vec::new() }
    }

    /// The variables of the default environment: `pi`, `tau` and `e`, bound
    /// to the constants, readonly and protected.
    pub open spec fn seeded() -> StoreView {
        StoreView::empty().set_readonly(
            lowercase_of("pi"@),
            ValueView::Decimal(constant_value(Constant::Pi)),
        ).set_readonly(
            lowercase_of("tau"@),
            ValueView::Decimal(constant_value(Constant::Tau)),
        ).set_readonly(
            lowercase_of("e"@),
            ValueView::Decimal(constant_value(Constant::E)),
        ).protect(lowercase_of("pi"@)).protect(lowercase_of("tau"@)).protect(lowercase_of("e"@))
    }

    /// The earlier results as plain data.
    pub open spec fn history(&self) -> Seq<ValueView> {
        value_views(self.results@)
    }

    /// Puts `value` in slot 0 of the results and moves the others one slot
    /// on.
    pub fn remember(&mut self, value: Value)
        ensures
            final(self).history() == seq![value@] + old(self).history(),
            final(self).variables == old(self).variables,
    {
        self.results.insert(0, value);
        assert(self.history() =~= seq![value@] + old(self).history());
    }

    /// The result in slot `slot`, slot 0 being the latest; zero where the
    /// slot is empty.
    pub fn recall(&self, slot: usize) -> (v: Value)
        ensures
            v@ == recalled(self.history(), slot as int),
    {
        if slot < self.results.len() {
            self.results[slot]
        } else {
            Value::Integer(Integer::zero())
        }
    }
}

impl Default for Environment {
    /// The environment in which `pi`, `tau` and `e` are bound to the
    /// constants, protected and readonly.
    fn default() -> (env: Environment)
        ensures
            env.results@.len() == 0,
            env.variables@ == Environment::seeded(),
    {
        let mut variables = ValueStore::new();
        variables.set_readonly("pi", Value::Decimal(Decimal::constant(Constant::Pi)));
        variables.set_readonly("tau", Value::Decimal(Decimal::constant(Constant::Tau)));
        variables.set_readonly("e", Value::Decimal(Decimal::constant(Constant::E)));
        variables.add_protected_key("pi");
        variables.add_protected_key("tau");
        variables.add_protected_key("e");
        Environment { variables, results: Vec::new() }
    }
}

} // verus!
