use regexxx::compilers::bidirectional_compiler::{BidirectionalCompiler, Compilers};
use regexxx::compilers::forward_compiler::ForwardCompiler;

type Dual = BidirectionalCompiler<ForwardCompiler>;

#[test]
fn bidirectional_compiler_test_expr_0() {
    // RE a(b|c)*d
    let [mut forward_machine, mut coverage_machine] = Dual::from_expr_a('a').unwrap();
    Dual::expr_a(&mut forward_machine, &mut coverage_machine, 'b').unwrap();
    Dual::expr_a(&mut forward_machine, &mut coverage_machine, 'c').unwrap();
    Dual::union(&mut forward_machine, &mut coverage_machine).unwrap();
    Dual::star(&mut forward_machine, &mut coverage_machine).unwrap();
    Dual::expr_a(&mut forward_machine, &mut coverage_machine, 'd').unwrap();
    Dual::concatenate(&mut forward_machine, &mut coverage_machine).unwrap();
    Dual::concatenate(&mut forward_machine, &mut coverage_machine).unwrap();
}
