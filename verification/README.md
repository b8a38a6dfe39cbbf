# graphql_context

The context in which a GraphQL query is executed, verified with Verus.

- `src/` is the library. A context knows its path in the response (`path`), the data that can be
  seen from it (`data`), what the variables of the request stand for (`scope`, `value`, `params`,
  `arguments`), which fields are selected below it (`unfold`, `selection`, `look_ahead`,
  `describe`, `acyclic`) and the headers of the response (`headers`).
- `tests/` runs the library on parsed requests.
- `app/` ties the library to the request parser, to state that threads share and to serializers.

Public proof functions whose names begin with `law_` state what holds of the library as a whole.
