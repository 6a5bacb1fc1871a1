use vstd::prelude::*;

verus! {

/// The bits of a color's three channels, by which colors are told apart.
pub type ColorBits = (u32, u32, u32);

/// The index that the pairs `s` give to the key `k`: that of the last pair
/// with the key, if there is one.
pub open spec fn latest<K>(s: Seq<(K, usize)>, k: K) -> Option<usize>
    decreases s.len(),
{
    if s.len() == 0 {
        None
    } else if s.last().0 == k {
        Some(s.last().1)
    } else {
        latest(s.drop_last(), k)
    }
}

/// The index that the pairs `s` give to the name `name`: that of the last
/// pair with the name, if there is one.
pub open spec fn latest_name(s: Seq<(String, usize)>, name: Seq<char>) -> Option<usize>
    decreases s.len(),
{
    if s.len() == 0 {
        None
    } else if s.last().0@ == name {
        Some(s.last().1)
    } else {
        latest_name(s.drop_last(), name)
    }
}

/// The palette indices of the colors of a model being read: each material
/// name and each color (by its bits) has the index of its color in the
/// palette, and the next color that is added gets the next index. The first
/// two palette entries are the default colors.
pub struct ColorIndex {
    materials: Vec<(String, usize)>,
    colors: Vec<(ColorBits, usize)>,
    next: usize,
}

impl ColorIndex {
    /// The index that the material `name` names.
    pub closed spec fn material_of(&self, name: Seq<char>) -> Option<usize> {
        latest_name(self.materials@, name)
    }

    /// The index of the color with the bits `bits`.
    pub closed spec fn color_of(&self, bits: ColorBits) -> Option<usize> {
        latest(self.colors@, bits)
    }

    /// The index that the next color gets.
    pub closed spec fn next_index(&self) -> nat {
        self.next as nat
    }

    /// No material and no color yet; the next color gets index 2, after the
    /// two default colors.
    pub fn new() -> (c: Self)
        ensures
            c.next_index() == 2,
            forall|name: Seq<char>| #[trigger] c.material_of(name) is None,
            forall|bits: ColorBits| #[trigger] c.color_of(bits) is None,
    {
        ColorIndex { materials: Vec::new(), colors: Vec::new(), next: 2 }
    }

    /// The next color is the material `name`, of the color `bits`: both get
    /// the next index (replacing what they had).
    pub fn add_material(&mut self, name: String, bits: ColorBits)
        requires
            old(self).next_index() < usize::MAX,
        ensures
            final(self).next_index() == old(self).next_index() + 1,
            final(self).material_of(name@) == Some(old(self).next_index() as usize),
            final(self).color_of(bits) == Some(old(self).next_index() as usize),
            forall|n: Seq<char>|
                n != name@ ==> #[trigger] final(self).material_of(n) == old(self).material_of(n),
            forall|b: ColorBits|
                b != bits ==> #[trigger] final(self).color_of(b) == old(self).color_of(b),
    {
        let ghost old_m = self.materials@;
        let ghost old_c = self.colors@;
        let idx = self.next;
        self.materials.push((name, idx));
        self.colors.push((bits, idx));
        self.next = idx + 1;
        proof {
            assert(self.materials@.drop_last() =~= old_m);
            assert(self.colors@.drop_last() =~= old_c);
        }
    }

    /// Adds the color `bits` unless it has an index already; returns whether
    /// it was added, and then it has the next index.
    pub fn add_color(&mut self, bits: ColorBits) -> (added: bool)
        requires
            old(self).next_index() < usize::MAX,
        ensures
            added == (old(self).color_of(bits) is None),
            added ==> final(self).next_index() == old(self).next_index() + 1 && final(self).color_of(
                bits,
            ) == Some(old(self).next_index() as usize),
            !added ==> final(self).next_index() == old(self).next_index(),
            final(self).color_of(bits) is Some,
            forall|b: ColorBits|
                b != bits ==> #[trigger] final(self).color_of(b) == old(self).color_of(b),
            forall|n: Seq<char>| #[trigger] final(self).material_of(n) == old(self).material_of(n),
    {
        if self.color_index(bits).is_some() {
            return false;
        }
        let ghost old_c = self.colors@;
        let idx = self.next;
        self.colors.push((bits, idx));
        self.next = idx + 1;
        assert(self.colors@.drop_last() =~= old_c);
        true
    }

    /// The index that the material `name` names, if any.
    pub fn material_index(&self, name: &str) -> (r: Option<usize>)
        ensures
            r == self.material_of(name@),
    {
        let target = String::from_str(name);
        let mut i = self.materials.len();
        assert(self.materials@.take(i as int) =~= self.materials@);
        while i > 0
            invariant
                i <= self.materials@.len(),
                target@ == name@,
                self.material_of(name@) == latest_name(self.materials@.take(i as int), name@),
            decreases i,
        {
            assert(self.materials@.take(i as int).drop_last() =~= self.materials@.take(i - 1));
            assert(self.materials@.take(i as int).last() == self.materials@[i - 1]);
            if self.materials[i - 1].0 == target {
                return Some(self.materials[i - 1].1);
            }
            i = i - 1;
        }
        assert(self.materials@.take(0) =~= Seq::<(String, usize)>::empty());
        None
    }

    /// The index of the color with the bits `bits`, if any.
    pub fn color_index(&self, bits: ColorBits) -> (r: Option<usize>)
        ensures
            r == self.color_of(bits),
    {
        let mut i = self.colors.len();
        assert(self.colors@.take(i as int) =~= self.colors@);
        while i > 0
            invariant
                i <= self.colors@.len(),
                self.color_of(bits) == latest(self.colors@.take(i as int), bits),
            decreases i,
        {
            assert(self.colors@.take(i as int).drop_last() =~= self.colors@.take(i - 1));
            assert(self.colors@.take(i as int).last() == self.colors@[i - 1]);
            let (b, idx) = self.colors[i - 1];
            if b.0 == bits.0 && b.1 == bits.1 && b.2 == bits.2 {
                return Some(idx);
            }
            i = i - 1;
        }
        assert(self.colors@.take(0) =~= Seq::<(ColorBits, usize)>::empty());
        None
    }
}

} // verus!
