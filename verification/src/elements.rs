use vstd::prelude::*;

verus! {

/// The classical elements of an orbit around a parent body, with the epoch
/// they refer to and the radius of the sphere of influence.
///
/// `R` is the scalar type. Nothing here computes with it: the record only
/// says which of its fields a re-derivation replaces and which it keeps.
#[derive(Debug, PartialEq, Default)]
pub struct OrbitalElements<R> {
    pub semimajor_axis: R,
    pub ascending_node: R,
    pub inclination: R,
    pub eccentricity: R,
    pub epoch: R,
    pub mean_anomaly: R,
    pub argument_of_perihelion: R,
    pub soi: R,
}

/// The five elements that are reconstructed from a position and a velocity
/// relative to the parent.
#[derive(Debug, PartialEq, Default)]
pub struct DerivedElements<R> {
    pub semimajor_axis: R,
    pub eccentricity: R,
    pub inclination: R,
    pub ascending_node: R,
    pub argument_of_perihelion: R,
}

impl<R: Copy> Clone for OrbitalElements<R> {
    fn clone(&self) -> (copy: Self)
        ensures
            copy == *self,
    {
        OrbitalElements {
            semimajor_axis: self.semimajor_axis,
            ascending_node: self.ascending_node,
            inclination: self.inclination,
            eccentricity: self.eccentricity,
            epoch: self.epoch,
            mean_anomaly: self.mean_anomaly,
            argument_of_perihelion: self.argument_of_perihelion,
            soi: self.soi,
        }
    }
}

impl<R: Copy> Copy for OrbitalElements<R> {

}

impl<R: Copy> Clone for DerivedElements<R> {
    fn clone(&self) -> (copy: Self)
        ensures
            copy == *self,
    {
        DerivedElements {
            semimajor_axis: self.semimajor_axis,
            eccentricity: self.eccentricity,
            inclination: self.inclination,
            ascending_node: self.ascending_node,
            argument_of_perihelion: self.argument_of_perihelion,
        }
    }
}

impl<R: Copy> Copy for DerivedElements<R> {

}

impl<R> OrbitalElements<R> {
    /// These elements after a re-derivation: the five derived fields come
    /// from `derived`; epoch, mean anomaly and sphere of influence stay.
    pub open spec fn rederived(self, derived: DerivedElements<R>) -> Self {
        OrbitalElements {
            semimajor_axis: derived.semimajor_axis,
            ascending_node: derived.ascending_node,
            inclination: derived.inclination,
            eccentricity: derived.eccentricity,
            epoch: self.epoch,
            mean_anomaly: self.mean_anomaly,
            argument_of_perihelion: derived.argument_of_perihelion,
            soi: self.soi,
        }
    }

    /// The five derived fields of these elements.
    pub open spec fn derived_part(self) -> DerivedElements<R> {
        DerivedElements {
            semimajor_axis: self.semimajor_axis,
            eccentricity: self.eccentricity,
            inclination: self.inclination,
            ascending_node: self.ascending_node,
            argument_of_perihelion: self.argument_of_perihelion,
        }
    }

    /// Replaces the five derived fields and keeps the rest.
    pub fn rederive(&mut self, derived: DerivedElements<R>)
        ensures
            *final(self) == old(self).rederived(derived),
    {
        self.semimajor_axis = derived.semimajor_axis;
        self.eccentricity = derived.eccentricity;
        self.inclination = derived.inclination;
        self.ascending_node = derived.ascending_node;
        self.argument_of_perihelion = derived.argument_of_perihelion;
    }
}

} // verus!
