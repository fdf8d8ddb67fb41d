use vstd::prelude::*;

verus! {

/// A product category, referenced by name from products.
pub struct ProductType {
    pub id: u64,
    pub name: String,
}

/// A product brand, referenced by name from products.
pub struct Brand {
    pub id: u64,
    pub name: String,
}

/// What a caller supplies to create a product.
pub struct ProductSpec {
    pub name: String,
    pub category: Option<String>,
    pub product_code: Option<String>,
    pub brand: String,
    pub supplier: Option<String>,
    pub barcode: Option<String>,
    pub count: i64,
    pub cost: Option<i64>,
}

/// A catalog item with its inventory count.
pub struct Product {
    pub id: u64,
    pub name: String,
    pub category: Option<String>,
    pub product_code: Option<String>,
    pub brand: String,
    pub supplier: Option<String>,
    pub barcode: Option<String>,
    pub count: i64,
    pub cost: Option<i64>,
}

#[derive(Debug, Clone, Copy, PartialEq, Eq, Structural)]
pub enum CatalogError {
    DuplicateName,
    DuplicateBarcode,
    UnknownBrand,
    UnknownType,
    UnknownProduct,
    NegativeCount,
    InsufficientStock,
    CountOverflow,
}

/// Types, brands and products, each table keyed by its position: row `i` has id `i + 1`.
pub struct Catalog {
    pub types: Vec<ProductType>,
    pub brands: Vec<Brand>,
    pub products: Vec<Product>,
}

pub open spec fn type_named(types: Seq<ProductType>, name: Seq<char>) -> bool {
    exists|i: int| 0 <= i < types.len() && (#[trigger] types[i]).name@ == name
}

pub open spec fn brand_named(brands: Seq<Brand>, name: Seq<char>) -> bool {
    exists|i: int| 0 <= i < brands.len() && (#[trigger] brands[i]).name@ == name
}

pub open spec fn barcode_taken(products: Seq<Product>, code: Seq<char>) -> bool {
    exists|i: int|
        0 <= i < products.len() && (#[trigger] products[i]).barcode is Some
            && products[i].barcode->0@ == code
}

/// Whether an optional barcode is already held by some product.
pub open spec fn barcode_clash(products: Seq<Product>, code: Option<String>) -> bool {
    match code {
        Some(b) => barcode_taken(products, b@),
        None => false,
    }
}

/// Whether an optional type name names no existing type.
pub open spec fn category_missing(types: Seq<ProductType>, category: Option<String>) -> bool {
    match category {
        Some(t) => !type_named(types, t@),
        None => false,
    }
}

/// Whether a product may stand in the catalog: its brand exists, its type exists if it has one.
pub open spec fn references_ok(
    types: Seq<ProductType>,
    brands: Seq<Brand>,
    category: Option<String>,
    brand: String,
) -> bool {
    &&& brand_named(brands, brand@)
    &&& !category_missing(types, category)
}

/// Once a type has been created under a name, the name is taken: a second
/// `create_type` with it fails with `DuplicateName` and leaves the types as they are.
pub proof fn lemma_type_name_taken(types: Seq<ProductType>, name: Seq<char>)
    requires
        types.len() > 0,
        types.last().name@ == name,
    ensures
        type_named(types, name),
{
    assert(types[types.len() - 1].name@ == name);
}

/// Once a brand has been created under a name, the name is taken: a second
/// `create_brand` with it fails with `DuplicateName` and leaves the brands as they are.
pub proof fn lemma_brand_name_taken(brands: Seq<Brand>, name: Seq<char>)
    requires
        brands.len() > 0,
        brands.last().name@ == name,
    ensures
        brand_named(brands, name),
{
    assert(brands[brands.len() - 1].name@ == name);
}

impl Catalog {
    pub open spec fn wf(&self) -> bool {
        &&& forall|i: int| 0 <= i < self.types@.len() ==> (#[trigger] self.types@[i]).id == i + 1
        &&& forall|i: int, j: int|
            0 <= i < j < self.types@.len() ==> (#[trigger] self.types@[i]).name@
                != (#[trigger] self.types@[j]).name@
        &&& forall|i: int| 0 <= i < self.brands@.len() ==> (#[trigger] self.brands@[i]).id == i + 1
        &&& forall|i: int, j: int|
            0 <= i < j < self.brands@.len() ==> (#[trigger] self.brands@[i]).name@
                != (#[trigger] self.brands@[j]).name@
        &&& forall|i: int|
            0 <= i < self.products@.len() ==> {
                let p = #[trigger] self.products@[i];
                &&& p.id == i + 1
                &&& p.count >= 0
                &&& references_ok(self.types@, self.brands@, p.category, p.brand)
            }
        &&& forall|i: int, j: int|
            0 <= i < j < self.products@.len() ==> match (
                (#[trigger] self.products@[i]).barcode,
                (#[trigger] self.products@[j]).barcode,
            ) {
                (Some(a), Some(b)) => a@ != b@,
                _ => true,
            }
    }

    pub fn new() -> (r: Catalog)
        ensures
            r.wf(),
            r.types@.len() == 0,
            r.brands@.len() == 0,
            r.products@.len() == 0,
    {
        Catalog { types: Vec::new(), brands: Vec::new(), products: Vec::new() }
    }

    fn find_type(&self, name: &String) -> (r: bool)
        ensures
            r == type_named(self.types@, name@),
    {
        let mut i: usize = 0;
        while i < self.types.len()
            invariant
                0 <= i <= self.types@.len(),
                forall|k: int| 0 <= k < i ==> (#[trigger] self.types@[k]).name@ != name@,
            decreases self.types@.len() - i,
        {
            if self.types[i].name == *name {
                return true;
            }
            i += 1;
        }
        false
    }

    fn find_brand(&self, name: &String) -> (r: bool)
        ensures
            r == brand_named(self.brands@, name@),
    {
        let mut i: usize = 0;
        while i < self.brands.len()
            invariant
                0 <= i <= self.brands@.len(),
                forall|k: int| 0 <= k < i ==> (#[trigger] self.brands@[k]).name@ != name@,
            decreases self.brands@.len() - i,
        {
            if self.brands[i].name == *name {
                return true;
            }
            i += 1;
        }
        false
    }

    fn find_barcode(&self, code: &String) -> (r: bool)
        ensures
            r == barcode_taken(self.products@, code@),
    {
        let mut i: usize = 0;
        while i < self.products.len()
            invariant
                0 <= i <= self.products@.len(),
                forall|k: int|
                    0 <= k < i ==> !((#[trigger] self.products@[k]).barcode is Some
                        && self.products@[k].barcode->0@ == code@),
            decreases self.products@.len() - i,
        {
            match &self.products[i].barcode {
                Some(b) => {
                    if *b == *code {
                        return true;
                    }
                },
                None => {},
            }
            i += 1;
        }
        false
    }

    /// Adds a type under a name not yet used; returns its id.
    pub fn create_type(&mut self, name: String) -> (r: Result<u64, CatalogError>)
        requires
            old(self).wf(),
            old(self).types@.len() < u64::MAX,
        ensures
            final(self).wf(),
            final(self).brands@ == old(self).brands@,
            final(self).products@ == old(self).products@,
            r is Ok <==> !type_named(old(self).types@, name@),
            type_named(old(self).types@, name@) <==> r == Err::<u64, CatalogError>(
                CatalogError::DuplicateName,
            ),
            r is Err ==> final(self).types@ == old(self).types@,
            r is Ok ==> {
                &&& r == Ok::<u64, CatalogError>((old(self).types@.len() + 1) as u64)
                &&& final(self).types@.len() == old(self).types@.len() + 1
                &&& final(self).types@.drop_last() == old(self).types@
                &&& final(self).types@.last().name@ == name@
                &&& type_named(final(self).types@, name@)
            },
    {
        if self.find_type(&name) {
            return Err(CatalogError::DuplicateName);
        }
        let id = self.types.len() as u64 + 1;
        self.types.push(ProductType { id, name });
        assert(self.types@.drop_last() == old(self).types@);
        Ok(id)
    }

    /// Adds a brand under a name not yet used; returns its id.
    pub fn create_brand(&mut self, name: String) -> (r: Result<u64, CatalogError>)
        requires
            old(self).wf(),
            old(self).brands@.len() < u64::MAX,
        ensures
            final(self).wf(),
            final(self).types@ == old(self).types@,
            final(self).products@ == old(self).products@,
            r is Ok <==> !brand_named(old(self).brands@, name@),
            brand_named(old(self).brands@, name@) <==> r == Err::<u64, CatalogError>(
                CatalogError::DuplicateName,
            ),
            r is Err ==> final(self).brands@ == old(self).brands@,
            r is Ok ==> {
                &&& r == Ok::<u64, CatalogError>((old(self).brands@.len() + 1) as u64)
                &&& final(self).brands@.len() == old(self).brands@.len() + 1
                &&& final(self).brands@.drop_last() == old(self).brands@
                &&& final(self).brands@.last().name@ == name@
                &&& brand_named(final(self).brands@, name@)
            },
    {
        if self.find_brand(&name) {
            return Err(CatalogError::DuplicateName);
        }
        let id = self.brands.len() as u64 + 1;
        self.brands.push(Brand { id, name });
        assert(self.brands@.drop_last() == old(self).brands@);
        Ok(id)
    }

    /// Adds a product whose brand, and type if given, exist and whose barcode, if
    /// given, is not yet used; returns its id.
    pub fn create_product(&mut self, spec: ProductSpec) -> (r: Result<u64, CatalogError>)
        requires
            old(self).wf(),
            old(self).products@.len() < u64::MAX,
        ensures
            final(self).wf(),
            final(self).types@ == old(self).types@,
            final(self).brands@ == old(self).brands@,
            r is Ok <==> references_ok(old(self).types@, old(self).brands@, spec.category, spec.brand)
                && !barcode_clash(old(self).products@, spec.barcode) && spec.count >= 0,
            r == Err::<u64, CatalogError>(CatalogError::UnknownBrand) <==> !brand_named(
                old(self).brands@,
                spec.brand@,
            ),
            r == Err::<u64, CatalogError>(CatalogError::UnknownType) <==> brand_named(
                old(self).brands@,
                spec.brand@,
            ) && category_missing(old(self).types@, spec.category),
            r == Err::<u64, CatalogError>(CatalogError::DuplicateBarcode) <==> references_ok(
                old(self).types@,
                old(self).brands@,
                spec.category,
                spec.brand,
            ) && barcode_clash(old(self).products@, spec.barcode),
            r == Err::<u64, CatalogError>(CatalogError::NegativeCount) <==> references_ok(
                old(self).types@,
                old(self).brands@,
                spec.category,
                spec.brand,
            ) && !barcode_clash(old(self).products@, spec.barcode)
                && spec.count < 0,
            r is Err ==> final(self).products@ == old(self).products@,
            r is Ok ==> {
                &&& r == Ok::<u64, CatalogError>((old(self).products@.len() + 1) as u64)
                &&& final(self).products@ == old(self).products@.push(
                    (Product {
                        id: (old(self).products@.len() + 1) as u64,
                        name: spec.name,
                        category: spec.category,
                        product_code: spec.product_code,
                        brand: spec.brand,
                        supplier: spec.supplier,
                        barcode: spec.barcode,
                        count: spec.count,
                        cost: spec.cost,
                    }),
                )
            },
    {
        if !self.find_brand(&spec.brand) {
            return Err(CatalogError::UnknownBrand);
        }
        match &spec.category {
            Some(t) => {
                if !self.find_type(t) {
                    return Err(CatalogError::UnknownType);
                }
            },
            None => {},
        }
        match &spec.barcode {
            Some(b) => {
                if self.find_barcode(b) {
                    return Err(CatalogError::DuplicateBarcode);
                }
            },
            None => {},
        }
        if spec.count < 0 {
            return Err(CatalogError::NegativeCount);
        }
        let id = self.products.len() as u64 + 1;
        let ProductSpec { name, category, product_code, brand, supplier, barcode, count, cost } =
            spec;
        self.products.push(
            Product { id, name, category, product_code, brand, supplier, barcode, count, cost },
        );
        Ok(id)
    }

    /// Changes a product's count by `delta`, refusing any change that would make it
    /// negative; returns the new count.
    pub fn adjust_inventory(&mut self, product_id: u64, delta: i64) -> (r: Result<i64, CatalogError>)
        requires
            old(self).wf(),
        ensures
            final(self).wf(),
            final(self).types@ == old(self).types@,
            final(self).brands@ == old(self).brands@,
            r == Err::<i64, CatalogError>(CatalogError::UnknownProduct) <==> !(1 <= product_id
                <= old(self).products@.len()),
            r is Ok <==> 1 <= product_id <= old(self).products@.len() && 0
                <= old(self).products@[product_id - 1].count + delta <= i64::MAX,
            1 <= product_id <= old(self).products@.len() ==> {
                let old_count = old(self).products@[product_id - 1].count as int;
                &&& r == Err::<i64, CatalogError>(CatalogError::InsufficientStock) <==> old_count
                    + delta < 0
                &&& r == Err::<i64, CatalogError>(CatalogError::CountOverflow) <==> old_count
                    + delta > i64::MAX
                &&& r is Ok ==> r == Ok::<i64, CatalogError>((old_count + delta) as i64)
                    && final(self).products@ == old(self).products@.update(
                    product_id - 1,
                    (Product { count: (old_count + delta) as i64, ..old(self).products@[product_id - 1] }),
                )
            },
            r is Err ==> final(self).products@ == old(self).products@,
    {
        if product_id == 0 || product_id as u128 > self.products.len() as u128 {
            return Err(CatalogError::UnknownProduct);
        }
        let idx = (product_id - 1) as usize;
        let current = self.products[idx].count;
        if delta < 0 && (current as i128) < -(delta as i128) {
            return Err(CatalogError::InsufficientStock);
        }
        match current.checked_add(delta) {
            None => Err(CatalogError::CountOverflow),
            Some(n) => {
                self.products[idx].count = n;
                assert(self.products@ =~= old(self).products@.update(
                    idx as int,
                    Product { count: n, ..old(self).products@[idx as int] },
                ));
                Ok(n)
            },
        }
    }
}


} // verus!
